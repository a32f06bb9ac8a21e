//! The tree context: the lines of a file, the index built from its syntax
//! tree, and the state of a selection.

use vstd::prelude::*;
use std::collections::HashSet;
use crate::model::{
    arranged_header, least_header, lemma_least_header, listed_upto, ContextView,
};
use crate::syntax_tree::{Node, NodeView, TreeCursor};
use crate::text::{line_texts, split_on_line_feed};

verus! {

broadcast use vstd::std_specs::hash::group_hash_axioms;

/// Selects and renders the lines of a file that give context to a set of
/// lines of interest.
pub struct TreeContext<'a> {
    /// Whether the headers of the enclosing scopes are shown.
    pub parent_context: bool,
    /// Whether a line of interest that opens a scope shows what is in it.
    pub child_context: bool,
    /// Whether the last line of the file, and of every scope shown, is anchored.
    pub last_line: bool,
    /// How many lines at the top of the file are always shown.
    pub margin: usize,
    /// Whether a line of interest is rendered as a marker.
    pub mark_lois: bool,
    /// The greatest number of lines shown of one header.
    pub header_max: usize,
    /// Whether a header that begins on the first line is shown.
    pub show_top_of_file_parent_scope: bool,
    /// How many lines are shown on either side of a line of interest.
    pub loi_pad: usize,
    /// Whether the marker for lines left out is the wide one.
    pub line_number: bool,
    pub(crate) lois: HashSet<usize>,
    pub(crate) show_lines: HashSet<usize>,
    pub(crate) num_lines: usize,
    pub(crate) lines: Vec<String>,
    pub(crate) done_parent_scopes: HashSet<usize>,
    pub(crate) nodes: Vec<Vec<Node<'a>>>,
    pub(crate) scopes: Vec<HashSet<usize>>,
    pub(crate) header: Vec<Vec<(usize, usize, usize)>>,
}

/// What the model keeps of the nodes that start on one line.
pub open spec fn node_views(nodes: Seq<Node<'_>>) -> Seq<NodeView> {
    Seq::new(nodes.len(), |k: int| nodes[k]@)
}

/// Puts `value` into the set of every row from `lo` to `hi`.
fn insert_in_rows(rows: &mut Vec<HashSet<usize>>, lo: usize, hi: usize, value: usize)
    requires
        lo <= hi < old(rows)@.len(),
    ensures
        final(rows)@.len() == old(rows)@.len(),
        forall|l: int|
            0 <= l < old(rows)@.len() ==> (#[trigger] final(rows)@[l])@ == if lo <= l <= hi {
                old(rows)@[l]@.insert(value)
            } else {
                old(rows)@[l]@
            },
{
    let n: usize = rows.len();
    let mut i: usize = lo;
    while i <= hi
        invariant
            lo <= i <= hi + 1,
            hi < n,
            n == rows@.len(),
            rows@.len() == old(rows)@.len(),
            forall|l: int|
                0 <= l < old(rows)@.len() ==> (#[trigger] rows@[l])@ == if lo <= l < i {
                    old(rows)@[l]@.insert(value)
                } else {
                    old(rows)@[l]@
                },
        decreases hi + 1 - i,
    {
        rows[i].insert(value);
        i = i + 1;
    }
}

/// The header of `headers` that comes first by size, first line and last line.
fn least_of(headers: &Vec<(usize, usize, usize)>) -> (least: (usize, usize, usize))
    requires
        headers@.len() > 0,
    ensures
        least == least_header(headers@),
{
    let mut least: (usize, usize, usize) = headers[0];
    let mut k: usize = 1;
    proof {
        assert(headers@.take(1).len() == 1);
        assert(headers@.take(1)[0] == headers@[0]);
    }
    while k < headers.len()
        invariant
            1 <= k <= headers@.len(),
            least == least_header(headers@.take(k as int)),
        decreases headers@.len() - k,
    {
        let next: (usize, usize, usize) = headers[k];
        proof {
            let upto = headers@.take(k + 1);
            assert(upto.drop_last() =~= headers@.take(k as int));
            assert(upto.last() == next);
        }
        let keep = least.0 < next.0 || (least.0 == next.0 && (least.1 < next.1 || (least.1
            == next.1 && least.2 <= next.2)));
        if !keep {
            least = next;
        }
        k = k + 1;
    }
    proof {
        assert(headers@.take(headers@.len() as int) =~= headers@);
    }
    least
}

/// Leaves every line with its one arranged header.
fn arrange_rows(rows: &mut Vec<Vec<(usize, usize, usize)>>, header_max: usize)
    requires
        forall|line: int, k: int|
            0 <= line < old(rows)@.len() && 0 <= k < old(rows)@[line]@.len() ==> {
                let h = #[trigger] old(rows)@[line]@[k];
                h.0 + h.1 <= h.2
            },
    ensures
        final(rows)@.len() == old(rows)@.len(),
        forall|line: int|
            0 <= line < old(rows)@.len() ==> (#[trigger] final(rows)@[line])@ == seq![
                arranged_header(old(rows)@[line]@, line as usize, header_max),
            ],
{
    let n: usize = rows.len();
    let mut line: usize = 0;
    while line < n
        invariant
            line <= n,
            n == rows@.len(),
            n == old(rows)@.len(),
            forall|l: int| line <= l < n ==> #[trigger] rows@[l] == old(rows)@[l],
            forall|l: int, k: int|
                0 <= l < old(rows)@.len() && 0 <= k < old(rows)@[l]@.len() ==> {
                    let h = #[trigger] old(rows)@[l]@[k];
                    h.0 + h.1 <= h.2
                },
            forall|l: int|
                0 <= l < line ==> (#[trigger] rows@[l])@ == seq![
                    arranged_header(old(rows)@[l]@, l as usize, header_max),
                ],
        decreases n - line,
    {
        let kept: (usize, usize, usize) = if rows[line].len() == 0 {
            (0, line, line + 1)
        } else {
            let least: (usize, usize, usize) = least_of(&rows[line]);
            proof {
                lemma_least_header(rows@[line as int]@);
                let k = choose|k: int|
                    0 <= k < rows@[line as int]@.len() && rows@[line as int]@[k] == least;
                assert(old(rows)@[line as int]@[k] == least);
            }
            if least.0 > header_max {
                (0, least.1, least.1 + header_max)
            } else {
                (0, least.1, least.2)
            }
        };
        let mut one: Vec<(usize, usize, usize)> = Vec::new();
        one.push(kept);
        proof {
            assert(one@ =~= seq![kept]);
        }
        rows[line] = one;
        line = line + 1;
    }
}

impl<'a> TreeContext<'a> {
    /// The model of this context.
    pub open(crate) spec fn view(&self) -> ContextView {
        ContextView {
            parent_context: self.parent_context,
            child_context: self.child_context,
            last_line: self.last_line,
            margin: self.margin,
            mark_lois: self.mark_lois,
            header_max: self.header_max,
            show_top_of_file_parent_scope: self.show_top_of_file_parent_scope,
            loi_pad: self.loi_pad,
            line_number: self.line_number,
            lines: line_texts(self.lines@),
            num_lines: self.num_lines,
            lois: self.lois@,
            show_lines: self.show_lines@,
            done_parent_scopes: self.done_parent_scopes@,
            nodes: Seq::new(self.nodes@.len(), |i: int| node_views(self.nodes@[i]@)),
            scopes: Seq::new(self.scopes@.len(), |i: int| self.scopes@[i]@),
            header: Seq::new(self.header@.len(), |i: int| self.header@[i]@),
        }
    }

    /// The context is sound: its model is, and every node it holds is one
    /// of a well-formed tree.
    pub open(crate) spec fn wf(&self) -> bool {
        &&& self@.wf()
        &&& forall|line: int, k: int|
            0 <= line < self.nodes@.len() && 0 <= k < self.nodes@[line]@.len() ==> (
            #[trigger] self.nodes@[line]@[k]).wf()
    }

    /// A context for the text `code`, with the default settings, no tree
    /// indexed and nothing selected.
    pub fn new(code: String) -> (context: TreeContext<'a>)
        ensures
            context.wf(),
            context@ == ContextView::fresh(code@),
    {
        let lines = split_on_line_feed(code.as_str());
        proof {
            crate::text::lemma_split_lines_len(code@);
        }
        let mut nodes: Vec<Vec<Node<'a>>> = Vec::new();
        let mut scopes: Vec<HashSet<usize>> = Vec::new();
        let mut header: Vec<Vec<(usize, usize, usize)>> = Vec::new();
        nodes.push(Vec::new());
        scopes.push(HashSet::new());
        header.push(Vec::new());
        let mut i: usize = 0;
        while i < lines.len()
            invariant
                i <= lines.len(),
                nodes@.len() == i + 1,
                scopes@.len() == i + 1,
                header@.len() == i + 1,
                forall|k: int| 0 <= k < nodes@.len() ==> (#[trigger] nodes@[k])@ == Seq::<
                    Node<'a>,
                >::empty(),
                forall|k: int| 0 <= k < scopes@.len() ==> (#[trigger] scopes@[k])@ == Set::<
                    usize,
                >::empty(),
                forall|k: int|
                    0 <= k < header@.len() ==> (#[trigger] header@[k])@ == Seq::<
                        (usize, usize, usize),
                    >::empty(),
            decreases lines.len() - i,
        {
            nodes.push(Vec::new());
            scopes.push(HashSet::new());
            header.push(Vec::new());
            i = i + 1;
        }
        let num_lines: usize = scopes.len();
        let context = TreeContext {
            parent_context: true,
            child_context: true,
            last_line: true,
            margin: 3,
            mark_lois: true,
            header_max: 10,
            show_top_of_file_parent_scope: false,
            loi_pad: 1,
            line_number: false,
            lois: HashSet::new(),
            show_lines: HashSet::new(),
            num_lines,
            lines,
            done_parent_scopes: HashSet::new(),
            nodes,
            scopes,
            header,
        };
        proof {
            let want = ContextView::fresh(code@);
            assert(context@.nodes =~= want.nodes) by {
                assert forall|k: int| 0 <= k < context@.nodes.len() implies context@.nodes[k]
                    =~= want.nodes[k] by {}
            }
            assert(context@.scopes =~= want.scopes);
            assert(context@.header =~= want.header);
        }
        context
    }

    /// Indexes one node.
    fn record(&mut self, node: Node<'a>)
        requires
            old(self).wf(),
            node.wf(),
            node.end() < old(self)@.num_lines,
        ensures
            final(self).wf(),
            final(self)@ == old(self)@.with_node(node@),
    {
        let start_line: usize = node.start_line();
        let end_line: usize = node.end_line();
        self.nodes[start_line].push(node);
        if end_line > start_line {
            self.header[start_line].push((end_line - start_line, start_line, end_line));
        }
        insert_in_rows(&mut self.scopes, start_line, end_line, start_line);
        proof {
            let want = old(self)@.with_node(node@);
            assert(self@.nodes =~= want.nodes) by {
                assert forall|l: int| 0 <= l < want.nodes.len() implies self@.nodes[l]
                    =~= want.nodes[l] by {}
            }
            assert(self@.header =~= want.header);
            assert(self@.scopes =~= want.scopes);
        }
    }

    /// Indexes the nodes that `cursor` can still reach: the node it stands
    /// on and every node after it in the subtree of the cursor's root, each
    /// once, in document order.
    pub fn walk(&mut self, cursor: TreeCursor<'a>)
        requires
            old(self).wf(),
            cursor.wf(),
            forall|k: int|
                cursor.current() <= k < cursor.tree().subtree_end(cursor.root()) ==> (
                #[trigger] cursor.tree().end_line(k)) < old(self)@.num_lines,
        ensures
            final(self).wf(),
            final(self)@ == old(self)@.with_nodes(
                cursor.tree().node_views(
                    cursor.current(),
                    cursor.tree().subtree_end(cursor.root()),
                ),
            ),
            forall|k: int, line: int|
                cursor.current() <= k < cursor.tree().subtree_end(cursor.root())
                    && cursor.tree().start_line(k) <= line <= cursor.tree().end_line(k)
                    ==> #[trigger] final(self)@.scopes[line].contains(
                    #[trigger] cursor.tree().start_line(k),
                ),
    {
        proof {
            let tree = cursor.tree();
            let lo = cursor.current();
            let views = tree.node_views(lo, tree.subtree_end(cursor.root()));
            assert forall|k: int, line: int|
                lo <= k < tree.subtree_end(cursor.root()) && tree.start_line(k) <= line
                    <= tree.end_line(k) implies #[trigger] old(self)@.with_nodes(
                views,
            ).scopes[line].contains(#[trigger] tree.start_line(k)) by {
                assert(views[k - lo] == tree.node_view(k));
                crate::laws::lemma_scopes_of_nodes(old(self)@, views, line, tree.start_line(k));
            }
        }
        let mut at = cursor;
        let ghost tree = cursor.tree();
        let ghost first = cursor.current();
        let ghost end = tree.subtree_end(cursor.root());
        loop
            invariant
                tree == cursor.tree(),
                first == cursor.current(),
                end == tree.subtree_end(cursor.root()),
                forall|k: int, line: int|
                    first <= k < end && tree.start_line(k) <= line <= tree.end_line(k)
                        ==> #[trigger] old(self)@.with_nodes(
                        tree.node_views(first, end),
                    ).scopes[line].contains(#[trigger] tree.start_line(k)),
                self.wf(),
                at.wf(),
                at.tree() == tree,
                tree.subtree_end(at.root()) == end,
                first <= at.current() < end,
                forall|k: int| first <= k < end ==> (#[trigger] tree.end_line(k)) < self@.num_lines,
                self@ == old(self)@.with_nodes(tree.node_views(first, at.current())),
            decreases end - at.current(),
        {
            let ghost here = at.current();
            self.record(at.node());
            proof {
                let upto = tree.node_views(first, here + 1);
                assert(upto.drop_last() =~= tree.node_views(first, here));
                assert(upto.last() == tree.node_view(here));
            }
            if at.goto_first_child() {
                continue ;
            }
            if at.goto_next_sibling() {
                continue ;
            }
            loop
                invariant_except_break
                    tree.subtree_end(at.current()) == here + 1,
                    at.current() == at.root() || tree.subtree_end(at.current())
                        >= tree.subtree_end(tree.parent(at.current())),
                invariant
                    tree == cursor.tree(),
                    first == cursor.current(),
                    end == tree.subtree_end(cursor.root()),
                    forall|k: int, line: int|
                        first <= k < end && tree.start_line(k) <= line <= tree.end_line(k)
                            ==> #[trigger] old(self)@.with_nodes(
                            tree.node_views(first, end),
                        ).scopes[line].contains(#[trigger] tree.start_line(k)),
                    self.wf(),
                    at.wf(),
                    at.tree() == tree,
                    tree.subtree_end(at.root()) == end,
                    first <= here < end,
                    self@ == old(self)@.with_nodes(tree.node_views(first, here + 1)),
                    forall|k: int|
                        first <= k < end ==> (#[trigger] tree.end_line(k)) < self@.num_lines,
                ensures
                    at.current() == here + 1,
                decreases at.current(),
            {
                let ghost below = at.current();
                if !at.goto_parent() {
                    return ;
                }
                proof {
                    tree.lemma_parent_in_subtree(at.root(), below);
                    assert(below < tree.subtree_end(tree.parent(below)));
                    assert(tree.subtree_end(below) <= tree.subtree_end(tree.parent(below)));
                }
                if at.goto_next_sibling() {
                    break ;
                }
            }
        }
    }

    /// Reduces the headers recorded for each line to the one that is
    /// shown for it: the header of the smallest node that starts on the
    /// line, cut to `header_max` lines, or the line itself.
    pub fn arrange_headers(&mut self)
        requires
            old(self).wf(),
        ensures
            final(self).wf(),
            final(self)@ == old(self)@.arranged(),
            forall|line: int|
                0 <= line < final(self)@.num_lines ==> {
                    let h = #[trigger] final(self)@.header[line];
                    &&& h.len() == 1
                    &&& h[0].0 == 0
                    &&& old(self)@.header[line].len() > 0 && least_header(
                        old(self)@.header[line],
                    ).0 > old(self)@.header_max ==> h[0].2 - h[0].1 == old(self)@.header_max
                },
    {
        proof {
            assert forall|line: int, k: int|
                0 <= line < self.header@.len() && 0 <= k < self.header@[line]@.len() implies {
                let h = #[trigger] self.header@[line]@[k];
                h.0 + h.1 <= h.2
            } by {
                assert(self@.header[line][k] == self.header@[line]@[k]);
            }
        }
        arrange_rows(&mut self.header, self.header_max);
        proof {
            assert(self@.header =~= old(self)@.arranged().header);
            assert forall|line: int, k: int|
                0 <= line < self@.header.len() && 0 <= k < self@.header[line].len() implies {
                let h = #[trigger] self@.header[line][k];
                h.0 + h.1 <= h.2
            } by {
                let raw = old(self)@.header[line];
                if raw.len() > 0 {
                    lemma_least_header(raw);
                    let j = choose|j: int| 0 <= j < raw.len() && raw[j] == least_header(raw);
                    assert(raw[j].0 + raw[j].1 <= raw[j].2);
                }
            }
            assert forall|line: int| 0 <= line < self@.num_lines implies {
                let h = #[trigger] self@.header[line];
                &&& h.len() == 1
                &&& h[0].0 == 0
                &&& old(self)@.header[line].len() > 0 && least_header(old(self)@.header[line]).0
                    > old(self)@.header_max ==> h[0].2 - h[0].1 == old(self)@.header_max
            } by {
                let raw = old(self)@.header[line];
                if raw.len() > 0 {
                    lemma_least_header(raw);
                    let j = choose|j: int| 0 <= j < raw.len() && raw[j] == least_header(raw);
                    assert(raw[j].0 + raw[j].1 <= raw[j].2);
                }
            }
        }
    }

    /// Indexes the tree under `cursor` and arranges the headers.
    pub fn init(&mut self, cursor: TreeCursor<'a>)
        requires
            old(self).wf(),
            cursor.wf(),
            forall|k: int|
                cursor.current() <= k < cursor.tree().subtree_end(cursor.root()) ==> (
                #[trigger] cursor.tree().end_line(k)) < old(self)@.num_lines,
        ensures
            final(self).wf(),
            final(self)@ == old(self)@.with_nodes(
                cursor.tree().node_views(
                    cursor.current(),
                    cursor.tree().subtree_end(cursor.root()),
                ),
            ).arranged(),
    {
        self.walk(cursor);
        self.arrange_headers();
    }

    /// The lines of interest.
    pub fn get_lois(&self) -> (lois: &HashSet<usize>)
        ensures
            lois@ == self@.lois,
    {
        &self.lois
    }

    /// The lines selected for showing.
    pub fn get_show_lines(&self) -> (shown: &HashSet<usize>)
        ensures
            shown@ == self@.show_lines,
    {
        &self.show_lines
    }

    /// For each line, the first lines of the nodes that span it.
    pub fn get_scopes(&self) -> (scopes: &Vec<HashSet<usize>>)
        ensures
            scopes@.len() == self@.scopes.len(),
            forall|line: int|
                0 <= line < scopes@.len() ==> (#[trigger] scopes@[line])@ == self@.scopes[line],
    {
        &self.scopes
    }

    /// For each line, the headers recorded for it, each with the size of
    /// the node, its first line and its last; after the headers have been
    /// arranged, the one header of the line, with size 0, its first line
    /// and the line after its last.
    pub fn get_headers(&self) -> (header: &Vec<Vec<(usize, usize, usize)>>)
        ensures
            header@.len() == self@.header.len(),
            forall|line: int|
                0 <= line < header@.len() ==> (#[trigger] header@[line])@ == self@.header[line],
    {
        &self.header
    }

    /// The state of the scope index, for printing: for every line that has
    /// scopes its number and its scopes in rising order, all counted from
    /// one, the lines in rising order.
    pub fn print_state(&self) -> (rows: Vec<(usize, Vec<usize>)>)
        requires
            self.wf(),
        ensures
            rows@.len() == self@.state_upto(self@.num_lines as nat).len(),
            forall|i: int|
                0 <= i < rows@.len() ==> (#[trigger] rows@[i]).0 == self@.state_upto(
                    self@.num_lines as nat,
                )[i].0 && rows@[i].1@ == self@.state_upto(self@.num_lines as nat)[i].1,
    {
        let mut rows: Vec<(usize, Vec<usize>)> = Vec::new();
        let n: usize = self.num_lines;
        let mut line: usize = 0;
        while line < n
            invariant
                line <= n,
                n == self@.num_lines,
                self.wf(),
                rows@.len() == self@.state_upto(line as nat).len(),
                forall|i: int|
                    0 <= i < rows@.len() ==> (#[trigger] rows@[i]).0 == self@.state_upto(
                        line as nat,
                    )[i].0 && rows@[i].1@ == self@.state_upto(line as nat)[i].1,
            decreases n - line,
        {
            let mut row: Vec<usize> = Vec::new();
            let mut s: usize = 0;
            proof {
                assert(self@.scopes[line as int] == self.scopes@[line as int]@);
            }
            while s <= line
                invariant
                    s <= line + 1,
                    line < n,
                    n == self.scopes@.len(),
                    row@ == listed_upto(self.scopes@[line as int]@, s as nat),
                decreases line + 1 - s,
            {
                if self.scopes[line].contains(&s) {
                    row.push(s + 1);
                }
                s = s + 1;
            }
            if row.len() > 0 {
                let ghost before = rows@;
                rows.push((line + 1, row));
                proof {
                    assert forall|i: int| 0 <= i < rows@.len() implies (#[trigger] rows@[i]).0
                        == self@.state_upto((line + 1) as nat)[i].0 && rows@[i].1@
                        == self@.state_upto((line + 1) as nat)[i].1 by {
                        if i < before.len() {
                            assert(rows@[i] == before[i]);
                        }
                    }
                }
            }
            line = line + 1;
        }
        rows
    }

    /// The number of lines that the context counts: those of the text and
    /// a virtual line after the last.
    pub fn num_lines(&self) -> (n: usize)
        ensures
            n == self@.num_lines,
    {
        self.num_lines
    }

    /// Adds `lois` to the lines of interest.
    pub fn add_lois(&mut self, lois: Vec<usize>)
        ensures
            final(self)@ == (ContextView {
                lois: old(self)@.lois.union(lois@.to_set()),
                ..old(self)@
            }),
            old(self).wf() ==> final(self).wf(),
    {
        let mut i: usize = 0;
        while i < lois.len()
            invariant
                i <= lois.len(),
                self@.lois =~= old(self)@.lois.union(lois@.take(i as int).to_set()),
                self@ == (ContextView { lois: self@.lois, ..old(self)@ }),
                old(self).wf() ==> self.wf(),
            decreases lois.len() - i,
        {
            self.lois.insert(lois[i]);
            proof {
                let before = lois@.take(i as int);
                let after = lois@.take(i + 1);
                assert(after =~= before.push(lois@[i as int]));
                assert(after.to_set() =~= before.to_set().insert(lois@[i as int])) by {
                    vstd::seq_lib::seq_to_set_is_finite(before);
                    assert forall|x: usize| after.to_set().contains(x) implies before.to_set().insert(
                        lois@[i as int],
                    ).contains(x) by {
                        let k = choose|k: int| 0 <= k < after.len() && after[k] == x;
                        if k < i {
                            assert(before[k] == x);
                        }
                    }
                    assert forall|x: usize|
                        before.to_set().insert(lois@[i as int]).contains(
                            x,
                        ) implies after.to_set().contains(x) by {
                        if x == lois@[i as int] {
                            assert(after[i as int] == x);
                        } else {
                            let k = choose|k: int| 0 <= k < before.len() && before[k] == x;
                            assert(after[k] == x);
                        }
                    }
                }
                assert(self@.lois =~= old(self)@.lois.union(after.to_set()));
            }
            i = i + 1;
        }
        proof {
            assert(lois@.take(lois@.len() as int) =~= lois@);
        }
    }
}

} // verus!
