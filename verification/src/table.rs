//! The files that spans point into, and the tables of old nodes.

use vstd::prelude::*;
use std::collections::HashMap;
use crate::node::{descendants_from, subtree, Class, Node};
use crate::span::Span;

verus! {

broadcast use vstd::std_specs::hash::group_hash_axioms;

/// Where the text of a file comes from.
#[derive(Clone, Copy, PartialEq, Eq, Structural, Debug)]
pub enum FileKind {
    /// Source text as it was read.
    Real,
    /// A pseudo-file that holds what macros expanded to.
    Macros,
    /// The freshly printed text of a node.
    Printed,
}

/// One file of the source map.
#[derive(Clone, Copy, PartialEq, Eq, Structural, Debug)]
pub struct SourceFile {
    pub kind: FileKind,
    /// The length of the file's text in bytes.
    pub len: u32,
}

/// The files that spans point into; a span's `file` is an index into it.
#[derive(Clone, Debug, PartialEq, Eq)]
pub struct SourceMap {
    pub files: Vec<SourceFile>,
}

impl SourceMap {
    /// `file` is a pseudo-file of macro expansions.
    pub open spec fn macro_file(&self, file: u32) -> bool {
        file < self.files.len() && self.files[file as int].kind == FileKind::Macros
    }

    /// `sp` is a valid span within the text of a file of this map.
    pub open spec fn in_bounds(&self, sp: Span) -> bool {
        sp.file < self.files.len() && sp.lo <= sp.hi && sp.hi <= self.files[sp.file as int].len
    }

    /// Whether `sp` is a valid span within the text of a file of this map.
    pub fn is_in_bounds(&self, sp: Span) -> (r: bool)
        ensures
            r == self.in_bounds(sp),
    {
        let i = sp.file as usize;
        i < self.files.len() && sp.lo <= sp.hi && sp.hi <= self.files[i].len
    }

    #[verifier::when_used_as_spec(macro_file)]
    pub fn is_macro_file(&self, file: u32) -> (r: bool)
        ensures
            r == self.macro_file(file),
    {
        let i = file as usize;
        if i < self.files.len() {
            match self.files[i].kind {
                FileKind::Macros => true,
                _ => false,
            }
        } else {
            false
        }
    }
}

/// The splice points of the old tree, by class and identifier.
pub struct OldNodes<'a> {
    pub exprs: HashMap<u32, &'a Node>,
    pub pats: HashMap<u32, &'a Node>,
    pub tys: HashMap<u32, &'a Node>,
    pub stmts: HashMap<u32, &'a Node>,
    pub items: HashMap<u32, &'a Node>,
    pub foreign_items: HashMap<u32, &'a Node>,
}

impl<'a> OldNodes<'a> {
    /// The table of one class, as a map from identifiers to nodes.
    pub open spec fn table(&self, class: Class) -> Map<u32, &'a Node> {
        match class {
            Class::Expr => self.exprs@,
            Class::Pat => self.pats@,
            Class::Ty => self.tys@,
            Class::Stmt => self.stmts@,
            Class::Item => self.items@,
            Class::ForeignItem => self.foreign_items@,
        }
    }

    /// The old node of the given class that has the given identifier.
    pub open spec fn lookup(&self, class: Class, id: u32) -> Option<Node> {
        if self.table(class).contains_key(id) {
            Some(*self.table(class)[id])
        } else {
            None
        }
    }

    /// Tables that hold no node.
    pub fn new() -> (t: OldNodes<'a>)
        ensures
            forall|class: Class, id: u32| t.lookup(class, id) is None,
    {
        OldNodes {
            exprs: HashMap::new(),
            pats: HashMap::new(),
            tys: HashMap::new(),
            stmts: HashMap::new(),
            items: HashMap::new(),
            foreign_items: HashMap::new(),
        }
    }

    /// Looks up the old node of a class by its identifier.
    pub fn get(&self, class: Class, id: u32) -> (found: Option<&'a Node>)
        ensures
            found is Some <==> self.lookup(class, id) is Some,
            found matches Some(n) ==> self.lookup(class, id) == Some(*n),
    {
        let found = match class {
            Class::Expr => self.exprs.get(&id),
            Class::Pat => self.pats.get(&id),
            Class::Ty => self.tys.get(&id),
            Class::Stmt => self.stmts.get(&id),
            Class::Item => self.items.get(&id),
            Class::ForeignItem => self.foreign_items.get(&id),
        };
        match found {
            Some(n) => Some(*n),
            None => None,
        }
    }

    /// Enters a node under its identifier, in place of any node that the
    /// table of its class held under it.
    pub fn insert(&mut self, class: Class, node: &'a Node)
        ensures
            final(self).lookup(class, node.id) == Some(*node),
            forall|c: Class, id: u32|
                #![trigger final(self).lookup(c, id)]
                #![trigger old(self).lookup(c, id)]
                (c != class || id != node.id) ==> final(self).lookup(c, id) == old(self).lookup(
                    c,
                    id,
                ),
    {
        match class {
            Class::Expr => {
                self.exprs.insert(node.id, node);
            },
            Class::Pat => {
                self.pats.insert(node.id, node);
            },
            Class::Ty => {
                self.tys.insert(node.id, node);
            },
            Class::Stmt => {
                self.stmts.insert(node.id, node);
            },
            Class::Item => {
                self.items.insert(node.id, node);
            },
            Class::ForeignItem => {
                self.foreign_items.insert(node.id, node);
            },
        }
    }
}

/// What one reconciliation reads and never changes: the tables of old
/// nodes and the source map.
pub struct Session<'a> {
    pub old_nodes: OldNodes<'a>,
    pub files: &'a SourceMap,
}

/// The mathematical value of a [`Session`]: the old splice points by class
/// and identifier, and the files that hold what macros expanded to.
pub struct Env {
    pub old_nodes: Map<(Class, u32), Node>,
    pub macro_files: Set<u32>,
}

impl Env {
    /// The old node of the given class that has the given identifier.
    pub open spec fn lookup(self, class: Class, id: u32) -> Option<Node> {
        if self.old_nodes.contains_key((class, id)) {
            Some(self.old_nodes[(class, id)])
        } else {
            None
        }
    }
}

impl<'a> View for OldNodes<'a> {
    type V = Map<(Class, u32), Node>;

    open spec fn view(&self) -> Map<(Class, u32), Node> {
        Map::new(
            |key: (Class, u32)| self.lookup(key.0, key.1) is Some,
            |key: (Class, u32)| self.lookup(key.0, key.1)->0,
        )
    }
}

impl SourceMap {
    /// The files of this map that hold what macros expanded to.
    pub open spec fn macro_files(&self) -> Set<u32> {
        Set::new(|file: u32| self.macro_file(file))
    }
}

impl<'a> View for Session<'a> {
    type V = Env;

    open spec fn view(&self) -> Env {
        Env { old_nodes: self.old_nodes@, macro_files: self.files.macro_files() }
    }
}

/// The node that a table holds under `(class, id)` once `nodes` have been
/// entered in order into a table that held `base` there: the last of them
/// that is of that class and has that identifier.
pub open spec fn entered(base: Option<Node>, nodes: Seq<Node>, class: Class, id: u32) -> Option<
    Node,
>
    decreases nodes.len(),
{
    if nodes.len() == 0 {
        base
    } else if nodes.last().kind.class() == Some(class) && nodes.last().id == id {
        Some(nodes.last())
    } else {
        entered(base, nodes.drop_last(), class, id)
    }
}

/// The tables that hold the splice points among `nodes`.
pub open spec fn index_of(nodes: Seq<Node>) -> Map<(Class, u32), Node> {
    Map::new(
        |key: (Class, u32)| entered(None, nodes, key.0, key.1) is Some,
        |key: (Class, u32)| entered(None, nodes, key.0, key.1)->0,
    )
}

/// Entering two lists one after the other is entering their concatenation.
pub proof fn lemma_entered_concat(
    base: Option<Node>,
    a: Seq<Node>,
    b: Seq<Node>,
    class: Class,
    id: u32,
)
    ensures
        entered(base, a + b, class, id) == entered(entered(base, a, class, id), b, class, id),
    decreases b.len(),
{
    if b.len() == 0 {
        assert(a + b =~= a);
    } else {
        assert((a + b).last() == b.last());
        assert((a + b).drop_last() =~= a + b.drop_last());
        lemma_entered_concat(base, a, b.drop_last(), class, id);
    }
}

/// A node that the tables hold is one of the nodes entered, of the class
/// and with the identifier that it is held under.
pub proof fn lemma_entered_is_member(nodes: Seq<Node>, class: Class, id: u32)
    ensures
        entered(None, nodes, class, id) matches Some(n) ==> nodes.contains(n) && n.kind.class()
            == Some(class) && n.id == id,
    decreases nodes.len(),
{
    if nodes.len() > 0 {
        if nodes.last().kind.class() == Some(class) && nodes.last().id == id {
            assert(nodes[nodes.len() - 1] == nodes.last());
        } else {
            lemma_entered_is_member(nodes.drop_last(), class, id);
            if let Some(n) = entered(None, nodes.drop_last(), class, id) {
                let j = choose|j: int| 0 <= j < nodes.drop_last().len() && nodes.drop_last()[j] == n;
                assert(nodes[j] == n);
            }
        }
    }
}

/// Every splice point among the nodes entered is found under its class and
/// identifier.
pub proof fn law_every_splice_point_is_entered(nodes: Seq<Node>, j: int)
    requires
        0 <= j < nodes.len(),
        nodes[j].kind.class() is Some,
    ensures
        entered(None, nodes, nodes[j].kind.class()->0, nodes[j].id) is Some,
    decreases nodes.len(),
{
    let class = nodes[j].kind.class()->0;
    let id = nodes[j].id;
    if !(nodes.last().kind.class() == Some(class) && nodes.last().id == id) {
        law_every_splice_point_is_entered(nodes.drop_last(), j);
    }
}

impl<'a> OldNodes<'a> {
    /// Enters the splice points of the tree at `n`, each before its
    /// children.
    pub fn collect(&mut self, n: &'a Node)
        ensures
            forall|class: Class, id: u32|
                final(self).lookup(class, id) == entered(
                    #[trigger] old(self).lookup(class, id),
                    subtree(*n),
                    class,
                    id,
                ),
        decreases n,
    {
        let ghost start = *self;
        let ghost mut seen = seq![*n];
        if let Some(class) = n.kind.get_class() {
            self.insert(class, n);
        }
        assert forall|class: Class, id: u32|
            self.lookup(class, id) == entered(#[trigger] start.lookup(class, id), seen, class, id) by {
            assert(seen.drop_last() =~= Seq::<Node>::empty());
            assert(seen.last() == *n);
            assert(entered(start.lookup(class, id), seen.drop_last(), class, id) == start.lookup(
                class,
                id,
            ));
        }
        let mut k: usize = 0;
        assert(seen + descendants_from(*n, 0, 0) =~= subtree(*n));
        while k < n.fields.len()
            invariant
                k <= n.fields.len(),
                seen + descendants_from(*n, k as int, 0) == subtree(*n),
                forall|class: Class, id: u32|
                    self.lookup(class, id) == entered(
                        #[trigger] start.lookup(class, id),
                        seen,
                        class,
                        id,
                    ),
            decreases n.fields.len() - k,
        {
            let mut i: usize = 0;
            while i < n.fields[k].nodes.len()
                invariant
                    k < n.fields.len(),
                    i <= n.fields[k as int].nodes.len(),
                    seen + descendants_from(*n, k as int, i as int) == subtree(*n),
                    forall|class: Class, id: u32|
                        self.lookup(class, id) == entered(
                            #[trigger] start.lookup(class, id),
                            seen,
                            class,
                            id,
                        ),
                decreases n.fields[k as int].nodes.len() - i,
            {
                let ghost mid = *self;
                let ghost child = n.fields[k as int].nodes[i as int];
                self.collect(&n.fields[k].nodes[i]);
                proof {
                    assert forall|class: Class, id: u32|
                        self.lookup(class, id) == entered(
                            #[trigger] start.lookup(class, id),
                            seen + subtree(child),
                            class,
                            id,
                        ) by {
                        lemma_entered_concat(start.lookup(class, id), seen, subtree(child), class, id);
                        assert(mid.lookup(class, id) == entered(
                            start.lookup(class, id),
                            seen,
                            class,
                            id,
                        ));
                    }
                    assert(seen + (subtree(child) + descendants_from(*n, k as int, i + 1)) =~= (seen
                        + subtree(child)) + descendants_from(*n, k as int, i + 1));
                    seen = seen + subtree(child);
                }
                i += 1;
            }
            k += 1;
        }
        assert(seen + Seq::<Node>::empty() =~= seen);
    }

    /// The tables of the splice points of the tree at `root`. Where two of
    /// one class share an identifier, the later one is held.
    pub fn build(root: &'a Node) -> (t: OldNodes<'a>)
        ensures
            t@ == index_of(subtree(*root)),
    {
        let mut t = OldNodes::new();
        let ghost empty = t;
        t.collect(root);
        assert(t@ =~= index_of(subtree(*root))) by {
            assert forall|key: (Class, u32)|
                t.lookup(key.0, key.1) == entered(None, subtree(*root), key.0, key.1) by {
                assert(empty.lookup(key.0, key.1) is None);
            }
        }
        t
    }
}

/// The environment in which a new tree is reconciled with the tree at
/// `old`, whose spans point into `files`.
pub open spec fn env_of(old: Node, files: SourceMap) -> Env {
    Env { old_nodes: index_of(subtree(old)), macro_files: files.macro_files() }
}

impl<'a> Session<'a> {
    /// The session for reconciling a new tree with the tree at `old`.
    pub fn new(old: &'a Node, files: &'a SourceMap) -> (s: Session<'a>)
        ensures
            s@ == env_of(*old, *files),
    {
        Session { old_nodes: OldNodes::build(old), files }
    }
}

} // verus!
