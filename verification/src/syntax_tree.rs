//! A concrete syntax tree reduced to what line selection reads: for every
//! node the rows it spans, and the shape of the tree.
//!
//! Nodes are stored in document order (a node before its children, a child's
//! whole subtree before its next sibling), which is the order in which a
//! parser meets them. A node is named by its position in that order.

use vstd::prelude::*;

verus! {

/// What the tree keeps of one node.
pub struct NodeData {
    start_line: usize,
    end_line: usize,
    parent: usize,
    subtree_end: usize,
}

/// A syntax tree with at least a root node.
pub struct Tree {
    nodes: Vec<NodeData>,
}

impl Tree {
    /// The number of nodes.
    pub closed spec fn size(&self) -> int {
        self.nodes@.len() as int
    }

    /// The first row of node `i`.
    pub closed spec fn start_line(&self, i: int) -> usize {
        self.nodes@[i].start_line
    }

    /// The last row of node `i`.
    pub closed spec fn end_line(&self, i: int) -> usize {
        self.nodes@[i].end_line
    }

    /// The parent of node `i`; meaningless for the root, node 0.
    pub closed spec fn parent(&self, i: int) -> int {
        self.nodes@[i].parent as int
    }

    /// One past the last node of the subtree of node `i`, which is the run
    /// of nodes from `i` up to here.
    pub closed spec fn subtree_end(&self, i: int) -> int {
        self.nodes@[i].subtree_end as int
    }

    /// The tree is well formed: subtrees are nested runs, and the parent of
    /// a node is the nearest node before it whose subtree holds it.
    pub open spec fn wf(&self) -> bool {
        &&& self.size() >= 1
        &&& self.subtree_end(0) == self.size()
        &&& forall|i: int|
            0 <= i < self.size() ==> i < #[trigger] self.subtree_end(i) <= self.size()
        &&& forall|i: int|
            0 <= i < self.size() ==> #[trigger] self.start_line(i) <= self.end_line(i)
        &&& forall|i: int, j: int|
            0 <= i < j < self.size() && j < #[trigger] self.subtree_end(i)
                ==> #[trigger] self.subtree_end(j) <= self.subtree_end(i)
        &&& forall|i: int|
            0 < i < self.size() ==> 0 <= #[trigger] self.parent(i) < i < self.subtree_end(
                self.parent(i),
            )
        &&& forall|i: int, k: int|
            0 < i < self.size() && #[trigger] self.parent(i) < k < i
                ==> #[trigger] self.subtree_end(k) <= i
    }

    /// Node `j` is a child of node `i`.
    pub open spec fn is_child(&self, i: int, j: int) -> bool {
        0 <= i < j < self.size() && self.parent(j) == i
    }

    /// The children of node `i` among the nodes before `n`, in document order.
    pub open spec fn children_upto(&self, i: int, n: int) -> Seq<int>
        decreases n,
    {
        if n <= 0 {
            Seq::empty()
        } else if self.is_child(i, n - 1) {
            self.children_upto(i, n - 1).push(n - 1)
        } else {
            self.children_upto(i, n - 1)
        }
    }

    /// The children of node `i`, in document order.
    pub open spec fn children(&self, i: int) -> Seq<int> {
        self.children_upto(i, self.size())
    }

    /// What line selection reads of node `i`.
    pub open spec fn node_view(&self, i: int) -> NodeView {
        NodeView {
            start_line: self.start_line(i),
            end_line: self.end_line(i),
            children: self.children(i).map_values(|c: int| (self.start_line(c), self.end_line(c))),
        }
    }

    /// The nodes from `lo` up to `hi`, in document order.
    pub open spec fn node_views(&self, lo: int, hi: int) -> Seq<NodeView> {
        Seq::new((hi - lo) as nat, |k: int| self.node_view(lo + k))
    }

    /// A tree of one node, the root, which spans the rows from `start_line`
    /// to `end_line`. There is no such tree where the rows are out of order.
    pub fn new(start_line: usize, end_line: usize) -> (r: Option<Tree>)
        ensures
            r is Some <==> start_line <= end_line,
            r matches Some(t) ==> {
                &&& t.wf()
                &&& t.size() == 1
                &&& t.start_line(0) == start_line
                &&& t.end_line(0) == end_line
            },
    {
        if start_line > end_line {
            return None;
        }
        let mut nodes: Vec<NodeData> = Vec::new();
        nodes.push(NodeData { start_line, end_line, parent: 0, subtree_end: 1 });
        Some(Tree { nodes })
    }

    /// The number of nodes.
    pub fn node_count(&self) -> (n: usize)
        ensures
            n == self.size(),
    {
        self.nodes.len()
    }

    /// Adds a node as the last child of `parent` and returns its position.
    ///
    /// Nodes come in document order, so the parent is the node added last
    /// or one of its ancestors: one whose subtree reaches the end of the
    /// tree. For any other parent, and for rows out of order, the tree is
    /// left as it is and nothing is returned.
    pub fn add_child(&mut self, parent: usize, start_line: usize, end_line: usize) -> (r: Option<
        usize,
    >)
        requires
            old(self).wf(),
        ensures
            final(self).wf(),
            r is Some <==> parent < old(self).size() && old(self).subtree_end(parent as int) == old(
                self,
            ).size() && start_line <= end_line,
            r is None ==> *final(self) == *old(self),
            r matches Some(id) ==> {
                &&& id == old(self).size()
                &&& final(self).size() == id + 1
                &&& final(self).parent(id as int) == parent
                &&& final(self).start_line(id as int) == start_line
                &&& final(self).end_line(id as int) == end_line
                &&& final(self).subtree_end(id as int) == id + 1
                &&& forall|i: int|
                    0 <= i < id ==> #[trigger] final(self).start_line(i) == old(self).start_line(i)
                &&& forall|i: int|
                    0 <= i < id ==> #[trigger] final(self).end_line(i) == old(self).end_line(i)
                &&& forall|i: int|
                    0 <= i < id ==> #[trigger] final(self).parent(i) == old(self).parent(i)
                &&& forall|i: int|
                    0 <= i < id ==> #[trigger] final(self).subtree_end(i) == if i <= parent && old(
                        self,
                    ).subtree_end(i) == id {
                        id + 1
                    } else {
                        old(self).subtree_end(i)
                    }
            },
    {
        let n: usize = self.nodes.len();
        if parent >= n || start_line > end_line {
            return None;
        }
        if self.nodes[parent].subtree_end != n {
            return None;
        }
        let ghost before = *self;
        self.nodes.push(NodeData { start_line, end_line, parent, subtree_end: n });
        let m: usize = self.nodes.len();
        self.nodes[n].subtree_end = m;
        let mut a: usize = parent;
        loop
            invariant_except_break
                forall|i: int|
                    0 <= i < n ==> (#[trigger] self.nodes@[i]).subtree_end == if a < i <= parent
                        && before.subtree_end(i) == n {
                        m as int
                    } else {
                        before.subtree_end(i)
                    },
            invariant
                before.wf(),
                n == before.size(),
                m == n + 1,
                self.nodes@.len() == m,
                a <= parent < n,
                before.subtree_end(a as int) == n,
                self.nodes@[n as int].start_line == start_line,
                self.nodes@[n as int].end_line == end_line,
                self.nodes@[n as int].parent == parent,
                self.nodes@[n as int].subtree_end == m,
                forall|i: int|
                    0 <= i < n ==> (#[trigger] self.nodes@[i]).start_line == before.start_line(i)
                        && self.nodes@[i].end_line == before.end_line(i) && self.nodes@[i].parent
                        == before.parent(i),
            ensures
                forall|i: int|
                    0 <= i < n ==> (#[trigger] self.nodes@[i]).subtree_end == if i <= parent
                        && before.subtree_end(i) == n {
                        m as int
                    } else {
                        before.subtree_end(i)
                    },
            decreases a,
        {
            self.nodes[a].subtree_end = m;
            if a == 0 {
                break ;
            }
            let up: usize = self.nodes[a].parent;
            proof {
                assert(up == before.parent(a as int));
                assert forall|i: int| up < i < a implies before.subtree_end(i) != n by {
                    assert(before.subtree_end(i) <= a);
                }
                assert(before.subtree_end(up as int) >= before.subtree_end(a as int));
            }
            a = up;
        }
        proof {
            self.lemma_grown(before, parent as int);
        }
        Some(n)
    }

    /// What `add_child` leaves is a well-formed tree.
    proof fn lemma_grown(&self, before: Tree, parent: int)
        requires
            before.wf(),
            0 <= parent < before.size(),
            before.subtree_end(parent) == before.size(),
            self.size() == before.size() + 1,
            self.parent(before.size()) == parent,
            self.start_line(before.size()) <= self.end_line(before.size()),
            self.subtree_end(before.size()) == before.size() + 1,
            forall|i: int|
                0 <= i < before.size() ==> #[trigger] self.start_line(i) == before.start_line(i),
            forall|i: int|
                0 <= i < before.size() ==> #[trigger] self.end_line(i) == before.end_line(i),
            forall|i: int|
                0 <= i < before.size() ==> #[trigger] self.parent(i) == before.parent(i),
            forall|i: int|
                0 <= i < before.size() ==> #[trigger] self.subtree_end(i) == if i <= parent
                    && before.subtree_end(i) == before.size() {
                    before.size() + 1
                } else {
                    before.subtree_end(i)
                },
        ensures
            self.wf(),
    {
        let n = before.size();
        assert(before.subtree_end(0) == n);
        assert forall|i: int, j: int|
            0 <= i < j < self.size() && j < #[trigger] self.subtree_end(i) implies #[trigger] self.subtree_end(
            j,
        ) <= self.subtree_end(i) by {
            if j < n {
                assert(before.subtree_end(j) <= before.subtree_end(i));
            }
        }
        assert forall|i: int| 0 < i < self.size() implies 0 <= #[trigger] self.parent(i) < i
            < self.subtree_end(self.parent(i)) by {
            if i < n {
                assert(0 <= before.parent(i) < i < before.subtree_end(before.parent(i)));
            }
        }
        assert forall|i: int, k: int|
            0 < i < self.size() && #[trigger] self.parent(i) < k < i implies #[trigger] self.subtree_end(
            k,
        ) <= i by {
            if i < n {
                assert(before.parent(i) < k < i);
                assert(before.subtree_end(k) <= i);
            }
        }
    }

    /// The greatest row that any node reaches.
    pub fn max_end_line(&self) -> (r: usize)
        requires
            self.wf(),
        ensures
            forall|i: int| 0 <= i < self.size() ==> #[trigger] self.end_line(i) <= r,
            exists|i: int| 0 <= i < self.size() && #[trigger] self.end_line(i) == r,
    {
        let mut r: usize = self.nodes[0].end_line;
        let ghost mut at: int = 0;
        let mut k: usize = 1;
        while k < self.nodes.len()
            invariant
                1 <= k <= self.nodes@.len(),
                0 <= at < k,
                self.end_line(at) == r,
                forall|i: int| 0 <= i < k ==> #[trigger] self.end_line(i) <= r,
            decreases self.nodes@.len() - k,
        {
            if self.nodes[k].end_line > r {
                r = self.nodes[k].end_line;
                proof {
                    at = k as int;
                }
            }
            k = k + 1;
        }
        r
    }

    /// The root node.
    pub fn root_node(&self) -> (node: Node<'_>)
        requires
            self.wf(),
        ensures
            node.wf(),
            node.tree() == *self,
            node.index() == 0,
    {
        Node { tree: self, index: 0 }
    }

    /// A cursor over the whole tree, standing on the root.
    pub fn walk(&self) -> (cursor: TreeCursor<'_>)
        requires
            self.wf(),
        ensures
            cursor.wf(),
            cursor.tree() == *self,
            cursor.root() == 0,
            cursor.current() == 0,
    {
        TreeCursor { tree: self, root: 0, current: 0 }
    }

    /// A node with more than itself in its subtree has the next node as a child.
    pub proof fn lemma_first_child(&self, i: int)
        requires
            self.wf(),
            0 <= i,
            i + 1 < self.subtree_end(i),
            i < self.size(),
        ensures
            self.is_child(i, i + 1),
    {
        let p = self.parent(i + 1);
        if p < i {
            assert(self.subtree_end(i) <= i + 1);
        }
    }

    /// Inside the subtree of `j`, every other node has its parent there too.
    pub proof fn lemma_parent_in_subtree(&self, j: int, k: int)
        requires
            self.wf(),
            0 <= j < k < self.subtree_end(j),
            j < self.size(),
        ensures
            j <= self.parent(k) < k,
    {
        if self.parent(k) < j {
            assert(self.subtree_end(j) <= k);
        }
    }

    /// Where the subtree of a child ends before that of its parent, the
    /// node that follows it is the parent's next child.
    pub proof fn lemma_next_sibling(&self, i: int, j: int)
        requires
            self.wf(),
            self.is_child(i, j),
            self.subtree_end(j) < self.subtree_end(i),
        ensures
            self.is_child(i, self.subtree_end(j)),
    {
        let s = self.subtree_end(j);
        let q = self.parent(s);
        assert(0 <= q < s < self.subtree_end(q));
        if q < i {
            assert(self.subtree_end(i) <= s);
        } else if q > i {
            if q < j {
                assert(self.subtree_end(q) <= j);
            } else if q > j {
                assert(self.subtree_end(q) <= self.subtree_end(j));
            }
        }
    }

    /// The children of `i` up to the end of the subtree of its child `j`
    /// are those before `j`, and `j`.
    pub proof fn lemma_children_skip(&self, i: int, j: int)
        requires
            self.wf(),
            self.is_child(i, j),
        ensures
            self.children_upto(i, self.subtree_end(j)) == self.children_upto(i, j).push(j),
    {
        assert(self.children_upto(i, j + 1) == self.children_upto(i, j).push(j));
        assert forall|k: int| j + 1 <= k < self.subtree_end(j) implies !self.is_child(i, k) by {
            self.lemma_parent_in_subtree(j, k);
        }
        assert(j < self.subtree_end(j));
        self.lemma_children_upto_stable(i, j + 1, self.subtree_end(j));
    }

    /// A node has no child before the node after it, and none from the end
    /// of its subtree on.
    pub proof fn lemma_children_within(&self, i: int)
        requires
            self.wf(),
            0 <= i < self.size(),
        ensures
            self.children_upto(i, i + 1) == Seq::<int>::empty(),
            self.children(i) == self.children_upto(i, self.subtree_end(i)),
    {
        self.lemma_children_upto_stable(i, 0, i + 1);
        assert forall|k: int| self.subtree_end(i) <= k < self.size() implies !self.is_child(
            i,
            k,
        ) by {
            if self.is_child(i, k) {
                assert(k < self.subtree_end(self.parent(k)));
            }
        }
        assert(i < self.subtree_end(i) <= self.size());
        self.lemma_children_upto_stable(i, self.subtree_end(i), self.size());
    }

    /// Where no node from `a` up to `b` is a child of `i`, the children
    /// before `b` are those before `a`.
    pub proof fn lemma_children_upto_stable(&self, i: int, a: int, b: int)
        requires
            self.wf(),
            0 <= i < self.size(),
            0 <= a <= b,
            forall|k: int| a <= k < b ==> !self.is_child(i, k),
        ensures
            self.children_upto(i, b) == self.children_upto(i, a),
        decreases b - a,
    {
        if a < b {
            self.lemma_children_upto_stable(i, a, b - 1);
        }
    }
}

/// What line selection reads of a node: its rows, and those of its children
/// in document order.
pub struct NodeView {
    pub start_line: usize,
    pub end_line: usize,
    pub children: Seq<(usize, usize)>,
}

/// A node of a tree.
#[derive(Clone, Copy)]
pub struct Node<'a> {
    tree: &'a Tree,
    index: usize,
}

impl<'a> View for Node<'a> {
    type V = NodeView;

    open spec fn view(&self) -> NodeView {
        self.tree().node_view(self.index())
    }
}

impl<'a> Node<'a> {
    /// The tree that the node belongs to.
    pub closed spec fn tree(&self) -> Tree {
        *self.tree
    }

    /// The node's position in document order.
    pub closed spec fn index(&self) -> int {
        self.index as int
    }

    /// The node is one of a well-formed tree.
    pub open spec fn wf(&self) -> bool {
        self.tree().wf() && 0 <= self.index() < self.tree().size()
    }

    /// The node's first row.
    pub open spec fn start(&self) -> usize {
        self.tree().start_line(self.index())
    }

    /// The node's last row.
    pub open spec fn end(&self) -> usize {
        self.tree().end_line(self.index())
    }

    /// The node's first row.
    pub fn start_line(&self) -> (row: usize)
        requires
            self.wf(),
        ensures
            row == self.start(),
            row <= self.end(),
    {
        proof {
            assert(self.tree().start_line(self.index()) <= self.tree().end_line(self.index()));
        }
        self.tree.nodes[self.index].start_line
    }

    /// The node's last row.
    pub fn end_line(&self) -> (row: usize)
        requires
            self.wf(),
        ensures
            row == self.end(),
            self.start() <= row,
    {
        proof {
            assert(self.tree().start_line(self.index()) <= self.tree().end_line(self.index()));
        }
        self.tree.nodes[self.index].end_line
    }

    /// A cursor over the node's subtree, standing on the node.
    pub fn walk(&self) -> (cursor: TreeCursor<'a>)
        requires
            self.wf(),
        ensures
            cursor.wf(),
            cursor.tree() == self.tree(),
            cursor.root() == self.index(),
            cursor.current() == self.index(),
    {
        TreeCursor { tree: self.tree, root: self.index, current: self.index }
    }
}

/// A place in a tree that can move to the neighbouring nodes, within the
/// subtree of the node it was made for.
pub struct TreeCursor<'a> {
    tree: &'a Tree,
    root: usize,
    current: usize,
}

impl<'a> TreeCursor<'a> {
    /// The tree that the cursor moves in.
    pub closed spec fn tree(&self) -> Tree {
        *self.tree
    }

    /// The node whose subtree the cursor stays in.
    pub closed spec fn root(&self) -> int {
        self.root as int
    }

    /// The node that the cursor stands on.
    pub closed spec fn current(&self) -> int {
        self.current as int
    }

    /// The cursor stands inside the subtree of its root, in a well-formed tree.
    pub open spec fn wf(&self) -> bool {
        &&& self.tree().wf()
        &&& 0 <= self.root() < self.tree().size()
        &&& self.root() <= self.current() < self.tree().subtree_end(self.root())
    }

    /// The node that the cursor stands on.
    pub fn node(&self) -> (node: Node<'a>)
        requires
            self.wf(),
        ensures
            node.wf(),
            node.tree() == self.tree(),
            node.index() == self.current(),
    {
        Node { tree: self.tree, index: self.current }
    }

    /// Moves to the first child of the current node, if it has a child.
    pub fn goto_first_child(&mut self) -> (moved: bool)
        requires
            old(self).wf(),
        ensures
            final(self).wf(),
            final(self).tree() == old(self).tree(),
            final(self).root() == old(self).root(),
            moved == (old(self).current() + 1 < old(self).tree().subtree_end(old(self).current())),
            final(self).current() == if moved {
                old(self).current() + 1
            } else {
                old(self).current()
            },
            moved ==> old(self).tree().is_child(old(self).current(), final(self).current()),
            !moved ==> old(self).tree().children(old(self).current()) == Seq::<int>::empty(),
    {
        proof {
            let t = self.tree();
            let i = self.current();
            t.lemma_children_within(i);
            if i + 1 < t.subtree_end(i) {
                t.lemma_first_child(i);
            } else {
                assert(i < t.subtree_end(i));
            }
        }
        let here: usize = self.current;
        let end: usize = self.tree.nodes[here].subtree_end;
        proof {
            let t = self.tree();
            assert(here < t.subtree_end(here as int) <= t.size());
            assert(t.subtree_end(here as int) <= t.subtree_end(self.root()));
        }
        if end - here > 1 {
            self.current = here + 1;
            true
        } else {
            false
        }
    }

    /// Moves to the next sibling of the current node, if it has one inside
    /// the cursor's subtree.
    pub fn goto_next_sibling(&mut self) -> (moved: bool)
        requires
            old(self).wf(),
        ensures
            final(self).wf(),
            final(self).tree() == old(self).tree(),
            final(self).root() == old(self).root(),
            moved == (old(self).current() != old(self).root() && old(self).tree().subtree_end(
                old(self).current(),
            ) < old(self).tree().subtree_end(old(self).tree().parent(old(self).current()))),
            final(self).current() == if moved {
                old(self).tree().subtree_end(old(self).current())
            } else {
                old(self).current()
            },
            moved ==> old(self).tree().is_child(
                old(self).tree().parent(old(self).current()),
                final(self).current(),
            ),
    {
        let here: usize = self.current;
        if here == self.root {
            return false;
        }
        proof {
            self.tree.lemma_parent_in_subtree(self.root as int, here as int);
        }
        let up: usize = self.tree.nodes[here].parent;
        let end: usize = self.tree.nodes[here].subtree_end;
        proof {
            let t = self.tree();
            assert(up == t.parent(here as int));
            assert(here < t.subtree_end(here as int) <= t.size());
            assert(t.subtree_end(up as int) <= t.subtree_end(self.root()));
            if t.subtree_end(here as int) < t.subtree_end(up as int) {
                t.lemma_next_sibling(up as int, here as int);
            }
        }
        if end < self.tree.nodes[up].subtree_end {
            self.current = end;
            true
        } else {
            false
        }
    }

    /// Moves to the parent of the current node, unless the cursor stands on
    /// its root.
    pub fn goto_parent(&mut self) -> (moved: bool)
        requires
            old(self).wf(),
        ensures
            final(self).wf(),
            final(self).tree() == old(self).tree(),
            final(self).root() == old(self).root(),
            moved == (old(self).current() != old(self).root()),
            final(self).current() == if moved {
                old(self).tree().parent(old(self).current())
            } else {
                old(self).current()
            },
    {
        let here: usize = self.current;
        if here == self.root {
            return false;
        }
        proof {
            self.tree.lemma_parent_in_subtree(self.root as int, here as int);
        }
        self.current = self.tree.nodes[here].parent;
        true
    }
}

} // verus!
