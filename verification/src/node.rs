//! Syntax trees, as far as reconciliation reads them.

use vstd::prelude::*;
use crate::prec::{ExprInfo, ExprPrec};
use crate::span::Span;

verus! {

/// The qualifiers in the header of a declaration. Each holds a code of the
/// qualifier's value; only equality of codes is ever read.
#[derive(Clone, Copy, PartialEq, Eq, Structural, Debug)]
pub struct Qualifiers {
    pub vis: u32,
    pub constness: bool,
    pub unsafety: bool,
    pub abi: u32,
    pub ident: u32,
}

/// Where each qualifier of a declaration's header stands in its text. A
/// qualifier that is absent has the zero-width span at which it would be
/// inserted.
#[derive(Clone, Copy, PartialEq, Eq, Structural, Debug)]
pub struct HeaderSpans {
    pub vis: Span,
    pub constness: Span,
    pub unsafety: Span,
    pub abi: Span,
    pub ident: Span,
}

impl HeaderSpans {
    /// No span of the header is text that a macro wrote: each has the
    /// hygiene context of plain source text.
    pub open spec fn in_source(self) -> bool {
        &&& self.vis.ctxt == 0
        &&& self.constness.ctxt == 0
        &&& self.unsafety.ctxt == 0
        &&& self.abi.ctxt == 0
        &&& self.ident.ctxt == 0
    }

    /// Each span can be extended by the byte that follows it.
    pub open spec fn extendable(self) -> bool {
        &&& self.vis.hi < u32::MAX
        &&& self.constness.hi < u32::MAX
        &&& self.unsafety.hi < u32::MAX
        &&& self.abi.hi < u32::MAX
        &&& self.ident.hi < u32::MAX
    }
}

/// What reconciliation reads of a declaration beyond its children.
#[derive(Clone, Copy, PartialEq, Eq, Structural, Debug)]
pub struct ItemInfo {
    /// The declaration is a function.
    pub is_fn: bool,
    pub quals: Qualifiers,
    /// The header spans found in the declaration's token stream, where it
    /// retains one whose header could be read.
    pub header: Option<HeaderSpans>,
}

/// The kinds of node. A closed set: reconciliation dispatches on it.
#[derive(Clone, Copy, PartialEq, Eq, Structural, Debug)]
pub enum NodeKind {
    Expr(ExprInfo),
    Pat,
    Ty,
    Stmt,
    Item(ItemInfo),
    ForeignItem,
    /// An attribute: it can be inserted into a list, but has no table of
    /// old nodes and is never reverted to its old text.
    Attribute,
    /// Any other construct. Its text is never replaced on its own: a change
    /// in it is a change of the closest enclosing splice point.
    Other,
}

/// The kinds whose nodes are splice points, one table of old nodes each.
#[derive(Clone, Copy, PartialEq, Eq, Structural, Debug)]
pub enum Class {
    Expr,
    Pat,
    Ty,
    Stmt,
    Item,
    ForeignItem,
}

impl NodeKind {
    /// The class of a splice point; `None` for the other kinds.
    pub open spec fn class(self) -> Option<Class> {
        match self {
            NodeKind::Expr(_) => Some(Class::Expr),
            NodeKind::Pat => Some(Class::Pat),
            NodeKind::Ty => Some(Class::Ty),
            NodeKind::Stmt => Some(Class::Stmt),
            NodeKind::Item(_) => Some(Class::Item),
            NodeKind::ForeignItem => Some(Class::ForeignItem),
            NodeKind::Attribute => None,
            NodeKind::Other => None,
        }
    }

    /// Nodes of this kind can be printed on their own and put in place of
    /// old text.
    pub open spec fn insertable(self) -> bool {
        self.class() is Some || self == NodeKind::Attribute
    }

    /// Two kinds that differ at most in what they carry.
    pub open spec fn same_construct(self, other: NodeKind) -> bool {
        match (self, other) {
            (NodeKind::Expr(_), NodeKind::Expr(_)) => true,
            (NodeKind::Pat, NodeKind::Pat) => true,
            (NodeKind::Ty, NodeKind::Ty) => true,
            (NodeKind::Stmt, NodeKind::Stmt) => true,
            (NodeKind::Item(_), NodeKind::Item(_)) => true,
            (NodeKind::ForeignItem, NodeKind::ForeignItem) => true,
            (NodeKind::Attribute, NodeKind::Attribute) => true,
            (NodeKind::Other, NodeKind::Other) => true,
            _ => false,
        }
    }

    #[verifier::when_used_as_spec(class)]
    pub fn get_class(self) -> (c: Option<Class>)
        ensures
            c == self.class(),
    {
        match self {
            NodeKind::Expr(_) => Some(Class::Expr),
            NodeKind::Pat => Some(Class::Pat),
            NodeKind::Ty => Some(Class::Ty),
            NodeKind::Stmt => Some(Class::Stmt),
            NodeKind::Item(_) => Some(Class::Item),
            NodeKind::ForeignItem => Some(Class::ForeignItem),
            NodeKind::Attribute => None,
            NodeKind::Other => None,
        }
    }

    pub fn is_same_construct(self, other: NodeKind) -> (r: bool)
        ensures
            r == self.same_construct(other),
    {
        match (self, other) {
            (NodeKind::Expr(_), NodeKind::Expr(_)) => true,
            (NodeKind::Pat, NodeKind::Pat) => true,
            (NodeKind::Ty, NodeKind::Ty) => true,
            (NodeKind::Stmt, NodeKind::Stmt) => true,
            (NodeKind::Item(_), NodeKind::Item(_)) => true,
            (NodeKind::ForeignItem, NodeKind::ForeignItem) => true,
            (NodeKind::Attribute, NodeKind::Attribute) => true,
            (NodeKind::Other, NodeKind::Other) => true,
            _ => false,
        }
    }
}

/// One child position of a node, holding any number of nodes: exactly one
/// for a plain child, at most one for an optional child, any number for a
/// list.
#[derive(Debug, PartialEq, Eq)]
pub struct Field {
    /// The nodes of this list carry identifiers by which an old and a new
    /// list can be aligned.
    pub aligned: bool,
    /// What this position demands of an expression that fills it; `None`
    /// where it demands what the parent's own position does.
    pub prec: Option<ExprPrec>,
    pub nodes: Vec<Node>,
}

/// A node of a syntax tree.
#[derive(Debug, PartialEq, Eq)]
pub struct Node {
    pub kind: NodeKind,
    /// The node's identifier. A node of the new tree that was copied from
    /// the old tree keeps the identifier it had there.
    pub id: u32,
    /// The source text of the node, attributes included.
    pub span: Span,
    /// A code of the node's variant and of its data that has no span. Two
    /// nodes with different codes cannot be reconciled child by child.
    pub shape: u64,
    pub fields: Vec<Field>,
    /// The placeholder: what parsing the node's freshly printed text gave.
    /// Its spans point into that printed text.
    pub printed: Option<Box<Node>>,
}

impl Field {
    /// What the nodes of this position must satisfy as expressions, when
    /// the parent's own position demands `outer`.
    pub open spec fn demand(self, outer: ExprPrec) -> ExprPrec {
        match self.prec {
            Some(p) => p,
            None => outer,
        }
    }
}

/// Nodes that can stand in a list whose elements are aligned by their
/// identifiers.
pub trait SeqItem {
    /// Whether an element of this kind can be printed on its own and
    /// inserted into a list.
    spec fn insertable(&self) -> bool;

    /// The source text of the element.
    spec fn item_span(&self) -> Span;

    /// The identifier by which the element is aligned.
    spec fn item_id(&self) -> u32;

    fn supported(&self) -> (r: bool)
        ensures
            r == self.insertable(),
    ;

    fn get_span(&self) -> (sp: Span)
        ensures
            sp == self.item_span(),
    ;

    fn get_id(&self) -> (id: u32)
        ensures
            id == self.item_id(),
    ;
}

impl SeqItem for Node {
    open spec fn insertable(&self) -> bool {
        self.kind.insertable()
    }

    open spec fn item_span(&self) -> Span {
        self.span
    }

    open spec fn item_id(&self) -> u32 {
        self.id
    }

    fn supported(&self) -> (r: bool) {
        match self.kind {
            NodeKind::Other => false,
            _ => true,
        }
    }

    fn get_span(&self) -> (sp: Span) {
        self.span
    }

    fn get_id(&self) -> (id: u32) {
        self.id
    }
}

/// `ph` has the shape of `n`: the same variant and as many nodes at every
/// child position, all the way down.
pub open spec fn mirrors(n: Node, ph: Node) -> bool
    decreases n,
{
    &&& n.shape == ph.shape
    &&& n.kind.same_construct(ph.kind)
    &&& n.fields.len() == ph.fields.len()
    &&& forall|k: int|
        0 <= k < n.fields.len() ==> (#[trigger] n.fields[k]).nodes.len()
            == ph.fields[k].nodes.len()
    &&& forall|k: int, i: int|
        0 <= k < n.fields.len() && 0 <= i < n.fields[k].nodes.len() ==> mirrors(
            #[trigger] n.fields[k].nodes[i],
            ph.fields[k].nodes[i],
        )
}

/// The header spans of a node's placeholder, where it has them.
pub open spec fn printed_header(n: Node) -> Option<HeaderSpans> {
    match n.printed {
        Some(ph) => match ph.kind {
            NodeKind::Item(info) => info.header,
            _ => None,
        },
        None => None,
    }
}

/// Every node of the tree that can be printed on its own carries a
/// placeholder of its own shape, in which a byte follows each qualifier of
/// a header, and only such nodes stand in aligned lists.
pub open spec fn renderable(n: Node) -> bool
    decreases n,
{
    &&& n.kind.insertable() ==> n.printed is Some && mirrors(n, *n.printed->0)
    &&& printed_header(n) matches Some(h) ==> h.extendable()
    &&& forall|k: int, i: int|
        0 <= k < n.fields.len() && 0 <= i < n.fields[k].nodes.len() ==> renderable(
            #[trigger] n.fields[k].nodes[i],
        )
    &&& forall|k: int, i: int|
        0 <= k < n.fields.len() && n.fields[k].aligned && 0 <= i < n.fields[k].nodes.len()
            ==> (#[trigger] n.fields[k].nodes[i]).kind.insertable()
}

/// The nodes of the tree below `n`, from position `i` of field `k` on,
/// each before its own children.
pub open spec fn descendants_from(n: Node, k: int, i: int) -> Seq<Node>
    decreases n, 0nat, n.fields.len() - k, n.fields[k].nodes.len() - i,
{
    if k < 0 || i < 0 || k >= n.fields.len() {
        Seq::empty()
    } else if i >= n.fields[k].nodes.len() {
        descendants_from(n, k + 1, 0)
    } else {
        subtree(n.fields[k].nodes[i]) + descendants_from(n, k, i + 1)
    }
}

/// The nodes of the tree at `n`, each before its own children.
pub open spec fn subtree(n: Node) -> Seq<Node>
    decreases n, 1nat, 0nat, 0nat,
{
    seq![n] + descendants_from(n, 0, 0)
}

/// Whether `ph` has the shape of `n`.
pub fn is_mirror(n: &Node, ph: &Node) -> (r: bool)
    ensures
        r == mirrors(*n, *ph),
    decreases n,
{
    if n.shape != ph.shape || !n.kind.is_same_construct(ph.kind) || n.fields.len()
        != ph.fields.len() {
        return false;
    }
    let mut k: usize = 0;
    while k < n.fields.len()
        invariant
            k <= n.fields.len(),
            n.fields.len() == ph.fields.len(),
            n.shape == ph.shape,
            n.kind.same_construct(ph.kind),
            forall|a: int|
                0 <= a < k ==> (#[trigger] n.fields[a]).nodes.len() == ph.fields[a].nodes.len(),
            forall|a: int, b: int|
                0 <= a < k && 0 <= b < n.fields[a].nodes.len() ==> mirrors(
                    #[trigger] n.fields[a].nodes[b],
                    ph.fields[a].nodes[b],
                ),
        decreases n.fields.len() - k,
    {
        if n.fields[k].nodes.len() != ph.fields[k].nodes.len() {
            assert(n.fields[k as int].nodes.len() != ph.fields[k as int].nodes.len());
            return false;
        }
        let mut i: usize = 0;
        while i < n.fields[k].nodes.len()
            invariant
                k < n.fields.len(),
                n.fields.len() == ph.fields.len(),
                n.fields[k as int].nodes.len() == ph.fields[k as int].nodes.len(),
                i <= n.fields[k as int].nodes.len(),
                forall|b: int|
                    0 <= b < i ==> mirrors(
                        #[trigger] n.fields[k as int].nodes[b],
                        ph.fields[k as int].nodes[b],
                    ),
            decreases n.fields[k as int].nodes.len() - i,
        {
            if !is_mirror(&n.fields[k].nodes[i], &ph.fields[k].nodes[i]) {
                assert(!mirrors(n.fields[k as int].nodes[i as int], ph.fields[k as int].nodes[i as int]));
                return false;
            }
            i += 1;
        }
        k += 1;
    }
    true
}

/// Whether no span of a header is text that a macro wrote.
pub fn is_header_in_source(h: &HeaderSpans) -> (r: bool)
    ensures
        r == h.in_source(),
{
    h.vis.ctxt == 0 && h.constness.ctxt == 0 && h.unsafety.ctxt == 0 && h.abi.ctxt == 0
        && h.ident.ctxt == 0
}

/// Whether a header's spans can each be extended by one byte.
pub fn is_extendable(h: &HeaderSpans) -> (r: bool)
    ensures
        r == h.extendable(),
{
    h.vis.hi < u32::MAX && h.constness.hi < u32::MAX && h.unsafety.hi < u32::MAX && h.abi.hi
        < u32::MAX && h.ident.hi < u32::MAX
}

/// Whether the tree at `n` can be reconciled: every node of it that can
/// be printed on its own carries a placeholder of its own shape, and
/// aligned lists hold such nodes only.
pub fn is_renderable(n: &Node) -> (r: bool)
    ensures
        r == renderable(*n),
    decreases n,
{
    match &n.printed {
        Some(ph) => {
            if n.supported() && !is_mirror(n, ph) {
                return false;
            }
            match ph.kind {
                NodeKind::Item(info) => match info.header {
                    Some(h) => {
                        if !is_extendable(&h) {
                            return false;
                        }
                    },
                    None => {},
                },
                _ => {},
            }
        },
        None => {
            if n.supported() {
                return false;
            }
        },
    }
    let mut k: usize = 0;
    while k < n.fields.len()
        invariant
            k <= n.fields.len(),
            n.kind.insertable() ==> n.printed is Some && mirrors(*n, *n.printed->0),
            printed_header(*n) is Some ==> printed_header(*n)->0.extendable(),
            forall|a: int, b: int|
                0 <= a < k && 0 <= b < n.fields[a].nodes.len() ==> renderable(
                    #[trigger] n.fields[a].nodes[b],
                ),
            forall|a: int, b: int|
                0 <= a < k && n.fields[a].aligned && 0 <= b < n.fields[a].nodes.len() ==> (
                #[trigger] n.fields[a].nodes[b]).kind.insertable(),
        decreases n.fields.len() - k,
    {
        let mut i: usize = 0;
        while i < n.fields[k].nodes.len()
            invariant
                k < n.fields.len(),
                i <= n.fields[k as int].nodes.len(),
                forall|b: int|
                    0 <= b < i ==> renderable(#[trigger] n.fields[k as int].nodes[b]),
                forall|b: int|
                    0 <= b < i && n.fields[k as int].aligned ==> (
                    #[trigger] n.fields[k as int].nodes[b]).kind.insertable(),
            decreases n.fields[k as int].nodes.len() - i,
        {
            if !is_renderable(&n.fields[k].nodes[i]) {
                assert(!renderable(n.fields[k as int].nodes[i as int]));
                return false;
            }
            if n.fields[k].aligned && !n.fields[k].nodes[i].supported() {
                assert(!n.fields[k as int].nodes[i as int].kind.insertable());
                return false;
            }
            i += 1;
        }
        k += 1;
    }
    true
}

/// The children of the two nodes are the same but for placeholders: as
/// many fields of the same kind and position, each with as many nodes, and
/// each node `alike` its counterpart.
pub open spec fn children_alike(a: Node, b: Node) -> bool
    decreases a, 0nat,
{
    &&& a.fields.len() == b.fields.len()
    &&& forall|k: int|
        0 <= k < a.fields.len() ==> (#[trigger] a.fields[k]).aligned == b.fields[k].aligned
            && a.fields[k].prec == b.fields[k].prec && a.fields[k].nodes.len()
            == b.fields[k].nodes.len()
    &&& forall|k: int, i: int|
        0 <= k < a.fields.len() && 0 <= i < a.fields[k].nodes.len() ==> alike(
            #[trigger] a.fields[k].nodes[i],
            b.fields[k].nodes[i],
        )
}

/// The two trees are the same but for placeholders: kind, identifier,
/// span, shape and children agree all the way down. A tree as it was
/// parsed and the same tree with a placeholder at every node are alike.
pub open spec fn alike(a: Node, b: Node) -> bool
    decreases a, 1nat,
{
    &&& a.kind == b.kind
    &&& a.id == b.id
    &&& a.span == b.span
    &&& a.shape == b.shape
    &&& children_alike(a, b)
}

/// Whether two trees are the same but for placeholders.
pub fn is_alike(a: &Node, b: &Node) -> (r: bool)
    ensures
        r == alike(*a, *b),
    decreases a,
{
    if a.kind != b.kind || a.id != b.id || a.span != b.span || a.shape != b.shape
        || a.fields.len() != b.fields.len() {
        return false;
    }
    let mut k: usize = 0;
    while k < a.fields.len()
        invariant
            k <= a.fields.len(),
            a.fields.len() == b.fields.len(),
            a.kind == b.kind && a.id == b.id && a.span == b.span && a.shape == b.shape,
            forall|x: int|
                0 <= x < k ==> (#[trigger] a.fields[x]).aligned == b.fields[x].aligned
                    && a.fields[x].prec == b.fields[x].prec && a.fields[x].nodes.len()
                    == b.fields[x].nodes.len(),
            forall|x: int, y: int|
                0 <= x < k && 0 <= y < a.fields[x].nodes.len() ==> alike(
                    #[trigger] a.fields[x].nodes[y],
                    b.fields[x].nodes[y],
                ),
        decreases a.fields.len() - k,
    {
        if a.fields[k].aligned != b.fields[k].aligned || a.fields[k].prec != b.fields[k].prec
            || a.fields[k].nodes.len() != b.fields[k].nodes.len() {
            assert(!(a.fields[k as int].aligned == b.fields[k as int].aligned && a.fields[k as int].prec
                == b.fields[k as int].prec && a.fields[k as int].nodes.len()
                == b.fields[k as int].nodes.len()));
            return false;
        }
        let mut i: usize = 0;
        while i < a.fields[k].nodes.len()
            invariant
                k < a.fields.len(),
                a.fields.len() == b.fields.len(),
                a.fields[k as int].nodes.len() == b.fields[k as int].nodes.len(),
                i <= a.fields[k as int].nodes.len(),
                forall|y: int|
                    0 <= y < i ==> alike(
                        #[trigger] a.fields[k as int].nodes[y],
                        b.fields[k as int].nodes[y],
                    ),
            decreases a.fields[k as int].nodes.len() - i,
        {
            if !is_alike(&a.fields[k].nodes[i], &b.fields[k].nodes[i]) {
                assert(!alike(a.fields[k as int].nodes[i as int], b.fields[k as int].nodes[i as int]));
                return false;
            }
            i += 1;
        }
        k += 1;
    }
    true
}

} // verus!
