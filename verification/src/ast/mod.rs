use self::token::{token_view, SpecToken, Token};
use vstd::prelude::*;

pub mod token;

verus! {

/// Nodes are named by their index in the arena.
pub type NodeId = usize;

/// The root of every tree: the module that the source text makes.
pub const CRATE_NODE: NodeId = 0;

/// The three ways to bind a name.
#[derive(Debug, Copy, Clone, Eq, PartialEq)]
pub enum BindType {
    Static,
    Const,
    Let,
}

/// What a node is.
#[derive(Debug, Copy, Clone, Eq, PartialEq)]
pub enum NodeKind {
    /// The root. Its children are the statements of the source text.
    Module,
    /// A binding. Its token is the bound name, its one child the value.
    Binding(BindType),
    /// A function literal. Its token is `fn`, its children the statements of
    /// its body.
    Function,
    /// A call. Its token is the opening parenthesis, its first child the
    /// callee, the others the arguments.
    Call,
    /// A scope access. Its token is `::`, its children the scope and the name
    /// looked up in it.
    Scope,
    /// A binary operation. Its token is the operator, its children the two
    /// operands.
    Binary,
    /// A prefix operation. Its token is the operator, its child the operand.
    Unary,
    /// An identifier, which is its token.
    Ident,
    /// A string literal, which is its token.
    Str,
}

/// A node of the arena.
#[derive(Debug, Clone, Eq, PartialEq)]
pub struct Node<'a> {
    data: NodeKind,
    token: Option<Token<'a>>,
    parent: Option<NodeId>,
    children: Vec<NodeId>,
}

/// What a `Node` stands for.
pub struct SpecNode {
    pub kind: NodeKind,
    pub token: Option<SpecToken>,
    pub parent: Option<NodeId>,
    pub children: Seq<NodeId>,
}

/// A syntax tree kept as an arena of nodes. Node 0 is the root.
#[derive(Debug, Clone, Eq, PartialEq)]
pub struct Ast<'a> {
    nodes: Vec<Node<'a>>,
}

/// A syntax tree as a value: what an arena holds below one of its nodes.
pub struct Tree {
    pub kind: NodeKind,
    pub token: Option<SpecToken>,
    pub children: Seq<Tree>,
}

impl<'a> View for Node<'a> {
    type V = SpecNode;

    closed spec fn view(&self) -> SpecNode {
        SpecNode {
            kind: self.data,
            token: token_view(self.token),
            parent: self.parent,
            children: self.children@,
        }
    }
}

impl<'a> View for Ast<'a> {
    type V = Seq<SpecNode>;

    closed spec fn view(&self) -> Seq<SpecNode> {
        self.nodes@.map_values(|n: Node<'a>| n@)
    }
}

/// The arena `a` holds a root and, besides it, trees under construction:
/// every child was made before its parent, knows its parent, and stands once
/// in its parent's list.
pub open spec fn arena_wf(a: Seq<SpecNode>) -> bool {
    &&& a.len() >= 1
    &&& a[0].kind == NodeKind::Module
    &&& a[0].token is None
    &&& a[0].parent is None
    &&& forall|i: int, k: int|
        0 <= i < a.len() && 0 <= k < a[i].children.len() ==> {
            let c = #[trigger] a[i].children[k];
            &&& 0 < c < a.len()
            &&& a[c as int].parent == Some(i as usize)
            &&& i != 0 ==> c < i
        }
    &&& forall|i: int, k: int, l: int|
        0 <= i < a.len() && 0 <= k < l < a[i].children.len() ==> #[trigger] a[i].children[k]
            < #[trigger] a[i].children[l]
    &&& forall|c: int|
        0 <= c < a.len() ==> ((#[trigger] a[c].parent) matches Some(p) ==> p < a.len()
            && a[p as int].children.contains(c as usize))
}

/// Every node of `a` but the root has a parent.
pub open spec fn attached(a: Seq<SpecNode>) -> bool {
    forall|c: int| 0 < c < a.len() ==> (#[trigger] a[c].parent) is Some
}

/// The tree that `a` holds below node `id`, which is not the root.
pub open spec fn subtree(a: Seq<SpecNode>, id: int) -> Tree
    decreases id,
{
    Tree {
        kind: a[id].kind,
        token: a[id].token,
        children: Seq::new(
            a[id].children.len(),
            |k: int|
                if 0 < a[id].children[k] < id {
                    subtree(a, a[id].children[k] as int)
                } else {
                    arbitrary()
                },
        ),
    }
}

/// The trees that `a` holds below the nodes `ids`, in their order.
pub open spec fn forest(a: Seq<SpecNode>, ids: Seq<NodeId>) -> Seq<Tree> {
    Seq::new(ids.len(), |k: int| subtree(a, ids[k] as int))
}

/// The tree that `a` holds below its root.
pub open spec fn module_tree(a: Seq<SpecNode>) -> Tree {
    Tree { kind: NodeKind::Module, token: None, children: forest(a, a[0].children) }
}

/// The nodes `ids` of `a` are roots of finished trees that wait for a parent,
/// the earlier made first.
pub open spec fn detached(a: Seq<SpecNode>, ids: Seq<NodeId>) -> bool {
    &&& forall|k: int|
        0 <= k < ids.len() ==> 0 < #[trigger] ids[k] < a.len() && a[ids[k] as int].parent is None
    &&& forall|k: int, l: int| 0 <= k < l < ids.len() ==> #[trigger] ids[k] < #[trigger] ids[l]
}

/// The children of a node that is not the root are the trees below the nodes
/// in its list.
pub proof fn lemma_subtree_children(a: Seq<SpecNode>, id: int)
    requires
        arena_wf(a),
        0 < id < a.len(),
    ensures
        subtree(a, id).children == forest(a, a[id].children),
{
    assert(subtree(a, id).children =~= forest(a, a[id].children));
}

/// A tree below a node depends on the nodes up to that one only, and not on
/// their parents.
pub proof fn lemma_subtree_frame(a: Seq<SpecNode>, b: Seq<SpecNode>, id: int)
    requires
        0 < id < a.len(),
        id < b.len(),
        forall|j: int|
            0 < j <= id ==> (#[trigger] a[j]).kind == b[j].kind && a[j].token == b[j].token
                && a[j].children == b[j].children,
    ensures
        subtree(a, id) == subtree(b, id),
    decreases id,
{
    assert forall|k: int| 0 <= k < a[id].children.len() && 0 < a[id].children[k] < id implies subtree(
        a,
        a[id].children[k] as int,
    ) == subtree(b, a[id].children[k] as int) by {
        lemma_subtree_frame(a, b, a[id].children[k] as int);
    }
    assert(subtree(a, id).children =~= subtree(b, id).children);
}

/// Trees below nodes of `a` are the same in an arena that only adds nodes to
/// `a` and gives parents to nodes of `a`.
pub proof fn lemma_forest_frame(a: Seq<SpecNode>, b: Seq<SpecNode>, ids: Seq<NodeId>)
    requires
        a.len() <= b.len(),
        forall|k: int| 0 <= k < ids.len() ==> 0 < #[trigger] ids[k] < a.len(),
        forall|j: int|
            0 < j < a.len() ==> (#[trigger] a[j]).kind == b[j].kind && a[j].token == b[j].token
                && a[j].children == b[j].children,
    ensures
        forest(a, ids) == forest(b, ids),
{
    assert forall|k: int| 0 <= k < ids.len() implies subtree(a, ids[k] as int) == subtree(
        b,
        ids[k] as int,
    ) by {
        lemma_subtree_frame(a, b, ids[k] as int);
    }
    assert(forest(a, ids) =~= forest(b, ids));
}

impl<'a> Node<'a> {
    /// What the node is.
    pub fn kind(&self) -> (kind: NodeKind)
        ensures
            kind == self@.kind,
    {
        self.data
    }

    /// The token the node was made from. The root has none.
    pub fn token(&self) -> (token: Option<Token<'a>>)
        ensures
            token_view(token) == self@.token,
    {
        self.token
    }

    /// The node's parent.
    pub fn parent(&self) -> (parent: Option<NodeId>)
        ensures
            parent == self@.parent,
    {
        self.parent
    }

    /// The node's children, in source order.
    pub fn children(&self) -> (children: &Vec<NodeId>)
        ensures
            children@ == self@.children,
    {
        &self.children
    }
}

impl<'a> Ast<'a> {
    /// The arena is well formed.
    pub open spec fn wf(&self) -> bool {
        arena_wf(self@)
    }

    /// The tree below the root.
    pub open spec fn tree(&self) -> Tree {
        module_tree(self@)
    }

    /// An arena that holds the root and nothing else: an empty module.
    pub fn new() -> (ast: Self)
        ensures
            ast@ == seq![
                SpecNode {
                    kind: NodeKind::Module,
                    token: None,
                    parent: None,
                    children: Seq::empty(),
                },
            ],
            ast.wf(),
            attached(ast@),
            ast.tree() == (Tree { kind: NodeKind::Module, token: None, children: Seq::empty() }),
    {
        let ast = Ast {
            nodes: vec![
                Node { data: NodeKind::Module, token: None, parent: None, children: Vec::new() },
            ],
        };
        assert(ast@ =~= seq![
            SpecNode {
                kind: NodeKind::Module,
                token: None,
                parent: None,
                children: Seq::empty(),
            },
        ]);
        assert(ast.tree().children =~= Seq::empty());
        ast
    }

    /// The number of nodes, the root included.
    pub fn len(&self) -> (len: usize)
        ensures
            len == self@.len(),
    {
        self.nodes.len()
    }

    /// The node `id`, if the arena has one.
    pub fn node(&self, id: NodeId) -> (node: Option<&Node<'a>>)
        ensures
            match node {
                Some(n) => id < self@.len() && n@ == self@[id as int],
                None => id >= self@.len(),
            },
    {
        if id < self.nodes.len() {
            Some(&self.nodes[id])
        } else {
            None
        }
    }

    /// Adds a node above the finished trees `children` and returns its id.
    pub(crate) fn add_node(
        &mut self,
        data: NodeKind,
        token: Option<Token<'a>>,
        children: Vec<NodeId>,
    ) -> (id: NodeId)
        requires
            old(self).wf(),
            detached(old(self)@, children@),
        ensures
            final(self).wf(),
            id == old(self)@.len(),
            final(self)@.len() == old(self)@.len() + 1,
            final(self)@[id as int] == (SpecNode {
                kind: data,
                token: token_view(token),
                parent: None,
                children: children@,
            }),
            forall|j: int|
                0 <= j < old(self)@.len() ==> #[trigger] final(self)@[j] == (SpecNode {
                    parent: if children@.contains(j as usize) {
                        Some(id)
                    } else {
                        old(self)@[j].parent
                    },
                    ..old(self)@[j]
                }),
            subtree(final(self)@, id as int) == (Tree {
                kind: data,
                token: token_view(token),
                children: forest(old(self)@, children@),
            }),
    {
        let id = self.nodes.len();
        let mut k: usize = 0;
        while k < children.len()
            invariant
                k <= children.len(),
                id == old(self)@.len(),
                self.nodes@.len() == id,
                detached(old(self)@, children@),
                forall|j: int|
                    0 <= j < id ==> #[trigger] self.nodes@[j]@ == (SpecNode {
                        parent: if children@.subrange(0, k as int).contains(j as usize) {
                            Some(id)
                        } else {
                            old(self)@[j].parent
                        },
                        ..old(self)@[j]
                    }),
            decreases children.len() - k,
        {
            let c = children[k];
            let ghost before = self.nodes@;
            self.nodes[c].parent = Some(id);
            proof {
                let done = children@.subrange(0, k as int);
                let next = children@.subrange(0, k + 1);
                assert(next[k as int] == c);
                assert forall|j: int| 0 <= j < id implies #[trigger] self.nodes@[j]@ == (SpecNode {
                    parent: if next.contains(j as usize) {
                        Some(id)
                    } else {
                        old(self)@[j].parent
                    },
                    ..old(self)@[j]
                }) by {
                    if j == c {
                        assert(next.contains(c));
                    } else {
                        assert(self.nodes@[j] == before[j]);
                        if done.contains(j as usize) {
                            let w = choose|w: int| 0 <= w < done.len() && done[w] == j as usize;
                            assert(next[w] == j as usize);
                        }
                        if next.contains(j as usize) {
                            let w = choose|w: int| 0 <= w < next.len() && next[w] == j as usize;
                            assert(done[w] == j as usize);
                        }
                    }
                }
            }
            k = k + 1;
        }
        let ghost kids = children@;
        assert(kids.subrange(0, kids.len() as int) =~= kids);
        self.nodes.push(Node { data, token, parent: None, children });
        proof {
            let a = old(self)@;
            let b = self@;
            assert(b.len() == a.len() + 1);
            assert forall|j: int| 0 <= j < a.len() implies #[trigger] b[j] == (SpecNode {
                parent: if kids.contains(j as usize) {
                    Some(id)
                } else {
                    a[j].parent
                },
                ..a[j]
            }) by {
                assert(b[j] == self.nodes@[j]@);
            }
            assert(b[id as int] == (SpecNode {
                kind: data,
                token: token_view(token),
                parent: None,
                children: kids,
            }));
            assert forall|i: int, k: int| 0 <= i < b.len() && 0 <= k < b[i].children.len() implies {
                let c = #[trigger] b[i].children[k];
                &&& 0 < c < b.len()
                &&& b[c as int].parent == Some(i as usize)
                &&& i != 0 ==> c < i
            } by {
                let c = b[i].children[k];
                if i < a.len() {
                    assert(b[i].children == a[i].children);
                    assert(a[i].children[k] == c);
                    assert(a[c as int].parent == Some(i as usize));
                    if kids.contains(c) {
                        let w = choose|w: int| 0 <= w < kids.len() && kids[w] == c;
                        assert(a[kids[w] as int].parent is None);
                    }
                } else {
                    assert(kids.contains(c));
                }
            }
            assert forall|c: int| 0 <= c < b.len() implies ((#[trigger] b[c].parent) matches Some(
                p,
            ) ==> p < b.len() && b[p as int].children.contains(c as usize)) by {
                if c < a.len() {
                    if kids.contains(c as usize) {
                    } else {
                        if a[c].parent is Some {
                            let p = a[c].parent->0;
                            assert(b[p as int].children == a[p as int].children);
                        }
                    }
                }
            }
            assert(arena_wf(b));
            lemma_forest_frame(a, b, kids);
            assert(subtree(b, id as int).children =~= forest(b, kids));
        }
        id
    }

    /// Makes the finished tree below `id` the last statement of the module.
    pub(crate) fn attach(&mut self, id: NodeId)
        requires
            old(self).wf(),
            0 < id < old(self)@.len(),
            old(self)@[id as int].parent is None,
            forall|k: int|
                0 <= k < old(self)@[0].children.len() ==> #[trigger] old(self)@[0].children[k]
                    < id,
        ensures
            final(self).wf(),
            final(self)@.len() == old(self)@.len(),
            final(self)@[0] == (SpecNode {
                children: old(self)@[0].children.push(id),
                ..old(self)@[0]
            }),
            final(self)@[id as int] == (SpecNode { parent: Some(CRATE_NODE), ..old(self)@[id as int] }),
            forall|j: int|
                0 < j < old(self)@.len() && j != id ==> #[trigger] final(self)@[j] == old(self)@[j],
            final(self).tree().children == old(self).tree().children.push(
                subtree(old(self)@, id as int),
            ),
    {
        self.nodes[id].parent = Some(CRATE_NODE);
        self.nodes[CRATE_NODE].children.push(id);
        proof {
            let a = old(self)@;
            let b = self@;
            assert(b[0].children == a[0].children.push(id));
            assert forall|i: int, k: int| 0 <= i < b.len() && 0 <= k < b[i].children.len() implies {
                let c = #[trigger] b[i].children[k];
                &&& 0 < c < b.len()
                &&& b[c as int].parent == Some(i as usize)
                &&& i != 0 ==> c < i
            } by {
                let c = b[i].children[k];
                if i == 0 {
                    if k < a[0].children.len() {
                        assert(a[0].children[k] == c);
                    }
                } else {
                    assert(a[i].children[k] == c);
                    assert(a[c as int].parent == Some(i as usize));
                }
            }
            assert forall|i: int, k: int, l: int|
                0 <= i < b.len() && 0 <= k < l < b[i].children.len() implies #[trigger] b[i].children[k]
                < #[trigger] b[i].children[l] by {
                if i == 0 {
                    assert(a[0].children[k] == b[0].children[k]);
                    if l < a[0].children.len() {
                        assert(a[0].children[l] == b[0].children[l]);
                    }
                } else {
                    assert(a[i].children[k] == b[i].children[k]);
                    assert(a[i].children[l] == b[i].children[l]);
                }
            }
            assert forall|c: int| 0 <= c < b.len() implies ((#[trigger] b[c].parent) matches Some(
                p,
            ) ==> p < b.len() && b[p as int].children.contains(c as usize)) by {
                if c == id {
                    assert(b[0].children[a[0].children.len() as int] == id);
                } else if b[c].parent is Some {
                    let p = a[c].parent->0;
                    let w = choose|w: int|
                        0 <= w < a[p as int].children.len() && a[p as int].children[w] == c as usize;
                    assert(b[p as int].children[w] == c as usize);
                }
            }
            lemma_forest_frame(a, b, b[0].children);
            assert(forest(a, b[0].children) =~= forest(a, a[0].children).push(subtree(a, id as int)));
        }
    }
}

/// A place in the source text, counted from zero.
#[derive(Debug, PartialEq, Eq, Copy, Clone)]
pub struct SourcePos {
    pub line: usize,
    pub column: usize,
}

/// The stretch of source text from `start` up to, and not including, `end`.
#[derive(Debug, PartialEq, Eq, Copy, Clone)]
pub struct SourceRange {
    pub start: SourcePos,
    pub end: SourcePos,
}

/// A piece of the source text together with the range it was taken from.
#[derive(Debug, PartialEq, Eq, Copy, Clone)]
pub struct SourceView<'v> {
    pub range: SourceRange,
    pub view: &'v str,
}

/// What a `SourceView` stands for: its range and the characters it borrows.
pub struct SpecSourceView {
    pub range: SourceRange,
    pub text: Seq<char>,
}

impl<'v> View for SourceView<'v> {
    type V = SpecSourceView;

    open spec fn view(&self) -> SpecSourceView {
        SpecSourceView { range: self.range, text: self.view@ }
    }
}

/// The number of line breaks among the first `n` characters of `s`.
pub open spec fn line_of(s: Seq<char>, n: int) -> int
    decreases n,
{
    if n <= 0 {
        0
    } else if s[n - 1] == '\n' {
        line_of(s, n - 1) + 1
    } else {
        line_of(s, n - 1)
    }
}

/// The number of characters between the last line break before offset `n` and `n`.
pub open spec fn column_of(s: Seq<char>, n: int) -> int
    decreases n,
{
    if n <= 0 || s[n - 1] == '\n' {
        0
    } else {
        column_of(s, n - 1) + 1
    }
}

/// The position of the character at offset `n` of `s`.
pub open spec fn position_of(s: Seq<char>, n: int) -> SourcePos {
    SourcePos { line: line_of(s, n) as usize, column: column_of(s, n) as usize }
}

/// The view of the characters of `s` from offset `from` up to `to`.
pub open spec fn span_of(s: Seq<char>, from: int, to: int) -> SpecSourceView {
    SpecSourceView {
        range: SourceRange { start: position_of(s, from), end: position_of(s, to) },
        text: s.subrange(from, to),
    }
}

/// Position `a` does not lie behind position `b`.
pub open spec fn not_behind(a: SourcePos, b: SourcePos) -> bool {
    a.line < b.line || (a.line == b.line && a.column <= b.column)
}

/// The range runs forward: its end does not lie before its start.
pub open spec fn runs_forward(range: SourceRange) -> bool {
    not_behind(range.start, range.end)
}

/// Line and column never count more characters than lie before the offset.
pub proof fn lemma_position_bounds(s: Seq<char>, n: int)
    requires
        0 <= n,
    ensures
        0 <= line_of(s, n),
        0 <= column_of(s, n),
        line_of(s, n) + column_of(s, n) <= n,
    decreases n,
{
    if n > 0 {
        lemma_position_bounds(s, n - 1);
    }
}

/// A position never moves backwards as the offset grows: a later offset lies
/// on a later line, or on the same line at a column that is no smaller.
pub proof fn lemma_position_monotonic(s: Seq<char>, a: int, b: int)
    requires
        0 <= a <= b,
    ensures
        line_of(s, a) < line_of(s, b) || (line_of(s, a) == line_of(s, b) && column_of(s, a)
            <= column_of(s, b)),
        line_of(s, a) == line_of(s, b) ==> column_of(s, b) - column_of(s, a) == b - a,
    decreases b - a,
{
    if a < b {
        lemma_position_monotonic(s, a, b - 1);
        lemma_position_bounds(s, b - 1);
    }
}

/// The position of an offset does not lie behind that of a later offset, so
/// the view of any stretch of a text runs forward.
pub proof fn lemma_span_runs_forward(s: Seq<char>, from: int, to: int)
    requires
        0 <= from <= to <= s.len() <= usize::MAX,
    ensures
        not_behind(position_of(s, from), position_of(s, to)),
        runs_forward(span_of(s, from, to).range),
{
    lemma_position_monotonic(s, from, to);
    lemma_position_bounds(s, from);
    lemma_position_bounds(s, to);
}

/// In a well-formed arena the root has no parent, and the parent of any other
/// node is the root or a node made later: following parents never comes back
/// to a node, and ends at the root where every node has a parent.
pub proof fn lemma_parent_is_root_or_later(a: Seq<SpecNode>, c: NodeId)
    requires
        arena_wf(a),
        c < a.len(),
        a[c as int].parent is Some,
    ensures
        c != 0,
        a[c as int].parent->0 < a.len(),
        a[c as int].parent->0 == 0 || c < a[c as int].parent->0,
{
    let p = a[c as int].parent->0 as int;
    let w = choose|w: int| 0 <= w < a[p].children.len() && a[p].children[w] == c;
    assert(a[p].children[w] == c);
}

} // verus!
