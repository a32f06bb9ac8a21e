//! The mathematical model of a tree context: the index built from a syntax
//! tree, the state of a selection, and what each stage of the selection
//! makes of it.

use vstd::prelude::*;
use crate::order::sort_by_len;
use crate::syntax_tree::NodeView;
use crate::text::split_lines;

verus! {

/// A tree context as contracts see it.
pub struct ContextView {
    /// Whether the headers of the enclosing scopes are shown.
    pub parent_context: bool,
    /// Whether a line of interest that opens a scope shows what is in it.
    pub child_context: bool,
    /// Whether the last line of the file, and of every scope shown, is anchored.
    pub last_line: bool,
    /// How many lines at the top of the file are always shown.
    pub margin: usize,
    /// Whether a line of interest is rendered as a marker.
    pub mark_lois: bool,
    /// The greatest number of lines shown of one header.
    pub header_max: usize,
    /// Whether a header that begins on the first line is shown.
    pub show_top_of_file_parent_scope: bool,
    /// How many lines are shown on either side of a line of interest.
    pub loi_pad: usize,
    /// Whether the marker for lines left out is the wide one.
    pub line_number: bool,
    /// The text of each line of the file.
    pub lines: Seq<Seq<char>>,
    /// One more than the number of lines: the file's lines and a virtual
    /// line after the last.
    pub num_lines: usize,
    /// The lines of interest.
    pub lois: Set<usize>,
    /// The lines selected for showing.
    pub show_lines: Set<usize>,
    /// The lines whose enclosing scopes have been expanded.
    pub done_parent_scopes: Set<usize>,
    /// For each line, the nodes that start on it, in document order.
    pub nodes: Seq<Seq<NodeView>>,
    /// For each line, the first lines of the nodes that span it.
    pub scopes: Seq<Set<usize>>,
    /// For each line, the headers recorded for it, each with the size of the
    /// node, its first line and its last.
    pub header: Seq<Seq<(usize, usize, usize)>>,
}

/// The greatest last line among `nodes`, or 0 if there are none.
pub open spec fn max_end(nodes: Seq<NodeView>) -> usize
    decreases nodes.len(),
{
    if nodes.len() == 0 {
        0
    } else {
        let rest = max_end(nodes.drop_last());
        if nodes.last().end_line > rest {
            nodes.last().end_line
        } else {
            rest
        }
    }
}

/// Whether header `a` comes no later than `b` when headers are ordered by
/// size, then by first line, then by last line.
pub open spec fn header_before(a: (usize, usize, usize), b: (usize, usize, usize)) -> bool {
    a.0 < b.0 || (a.0 == b.0 && (a.1 < b.1 || (a.1 == b.1 && a.2 <= b.2)))
}

/// The header of `headers` that comes first in that order.
pub open spec fn least_header(headers: Seq<(usize, usize, usize)>) -> (usize, usize, usize)
    decreases headers.len(),
{
    if headers.len() <= 1 {
        headers[0]
    } else {
        let rest = least_header(headers.drop_last());
        if header_before(rest, headers.last()) {
            rest
        } else {
            headers.last()
        }
    }
}

/// The one header kept for `line`: of the recorded headers the least, cut
/// to `header_max` lines if the node is larger than that; the line itself
/// where no header is recorded. The size is dropped.
pub open spec fn arranged_header(
    headers: Seq<(usize, usize, usize)>,
    line: usize,
    header_max: usize,
) -> (usize, usize, usize) {
    if headers.len() == 0 {
        (0, line, (line + 1) as usize)
    } else {
        let least = least_header(headers);
        if least.0 > header_max {
            (0, least.1, (least.1 + header_max) as usize)
        } else {
            (0, least.1, least.2)
        }
    }
}

/// The least header is one of the headers and comes before all of them.
pub proof fn lemma_least_header(headers: Seq<(usize, usize, usize)>)
    requires
        headers.len() > 0,
    ensures
        headers.contains(least_header(headers)),
        forall|k: int| 0 <= k < headers.len() ==> header_before(least_header(headers), #[trigger] headers[k]),
    decreases headers.len(),
{
    if headers.len() > 1 {
        let front = headers.drop_last();
        lemma_least_header(front);
        let k = choose|k: int| 0 <= k < front.len() && front[k] == least_header(front);
        assert(headers[k] == least_header(front));
        assert(headers[headers.len() - 1] == headers.last());
        assert forall|k: int| 0 <= k < headers.len() implies header_before(
            least_header(headers),
            #[trigger] headers[k],
        ) by {
            if k < front.len() {
                assert(front[k] == headers[k]);
                assert(header_before(least_header(front), front[k]));
            }
        }
    } else {
        assert(headers[0] == least_header(headers));
    }
}

/// Arranging what was arranged changes nothing.
pub proof fn lemma_arranged_header_idempotent(
    headers: Seq<(usize, usize, usize)>,
    line: usize,
    header_max: usize,
)
    ensures
        arranged_header(seq![arranged_header(headers, line, header_max)], line, header_max)
            == arranged_header(headers, line, header_max),
{
    let once = arranged_header(headers, line, header_max);
    assert(seq![once][0] == once);
}

/// The spans of `nodes` and of their children: each node, followed by its
/// children in document order.
pub open spec fn gathered(nodes: Seq<NodeView>) -> Seq<(usize, usize)>
    decreases nodes.len(),
{
    if nodes.len() == 0 {
        Seq::empty()
    } else {
        gathered(nodes.drop_last()).push((nodes.last().start_line, nodes.last().end_line))
            + nodes.last().children
    }
}

/// How many lines the sampling of a scope of `size` lines may add before it
/// stops: a tenth of the size, but no fewer than 5 and no more than 25.
pub open spec fn max_to_show(size: int) -> int {
    let tenth = size / 10;
    let capped = if tenth > 25 {
        25
    } else {
        tenth
    };
    if capped < 5 {
        5
    } else {
        capped
    }
}

/// The members of `set` below `n`, in rising order, each counted from one.
pub open spec fn listed_upto(set: Set<usize>, n: nat) -> Seq<usize>
    decreases n,
{
    if n == 0 {
        Seq::empty()
    } else if set.contains((n - 1) as usize) {
        listed_upto(set, (n - 1) as nat).push(n as usize)
    } else {
        listed_upto(set, (n - 1) as nat)
    }
}

/// The lines shown after gap closing: those shown before, and every line
/// that lies alone between two of them.
pub open spec fn close_gaps(shown: Set<usize>) -> Set<usize> {
    shown.union(
        Set::new(|l: usize| 0 < l < usize::MAX && shown.contains((l - 1) as usize) && shown.contains((l + 1) as usize)),
    )
}

/// The marker for a run of lines left out.
pub open spec fn gap_marker(line_number: bool) -> Seq<char> {
    if line_number {
        "...⋮...\n"@
    } else {
        "⋮...\n"@
    }
}

/// The marker that stands for a line of interest. It differs from both
/// markers for lines left out and does not begin with the bar.
pub open spec fn loi_marker() -> Seq<char> {
    "█\n"@
}

/// What is rendered for the lines from `a` up to, and not including, `b`.
pub open spec fn rendered_range(context: ContextView, a: int, b: int) -> Seq<char>
    decreases b - a,
{
    if b <= a {
        Seq::empty()
    } else {
        rendered_range(context, a, b - 1) + context.rendered_line(b - 1)
    }
}

impl ContextView {
    /// A context for `code` before any tree has been indexed, with the
    /// default settings.
    pub open spec fn fresh(code: Seq<char>) -> ContextView {
        let lines = split_lines(code);
        ContextView {
            parent_context: true,
            child_context: true,
            last_line: true,
            margin: 3,
            mark_lois: true,
            header_max: 10,
            show_top_of_file_parent_scope: false,
            loi_pad: 1,
            line_number: false,
            lines,
            num_lines: (lines.len() + 1) as usize,
            lois: Set::empty(),
            show_lines: Set::empty(),
            done_parent_scopes: Set::empty(),
            nodes: Seq::new((lines.len() + 1) as nat, |i: int| Seq::empty()),
            scopes: Seq::new((lines.len() + 1) as nat, |i: int| Set::empty()),
            header: Seq::new((lines.len() + 1) as nat, |i: int| Seq::empty()),
        }
    }

    /// The tables have one entry per line, the virtual line included, and
    /// every header lies within the node it was taken from.
    pub open spec fn wf(self) -> bool {
        &&& self.num_lines == self.lines.len() + 1
        &&& self.lines.len() >= 1
        &&& self.nodes.len() == self.num_lines
        &&& self.scopes.len() == self.num_lines
        &&& self.header.len() == self.num_lines
        &&& forall|line: int, k: int|
            0 <= line < self.header.len() && 0 <= k < self.header[line].len() ==> {
                let h = #[trigger] self.header[line][k];
                h.0 + h.1 <= h.2
            }
        &&& forall|line: int, k: int|
            0 <= line < self.nodes.len() && 0 <= k < self.nodes[line].len() ==> {
                let n = #[trigger] self.nodes[line][k];
                n.start_line == line && line <= n.end_line < self.num_lines
            }
        &&& forall|line: int, s: usize|
            0 <= line < self.scopes.len() && #[trigger] self.scopes[line].contains(s) ==> s <= line
    }

    /// The context after one more node has been indexed: the node is
    /// recorded under its first line, with a header if it spans more than
    /// one line, and its first line is a scope of every line that it spans.
    pub open spec fn with_node(self, node: NodeView) -> ContextView {
        ContextView {
            nodes: Seq::new(
                self.nodes.len(),
                |l: int|
                    if l == node.start_line {
                        self.nodes[l].push(node)
                    } else {
                        self.nodes[l]
                    },
            ),
            header: Seq::new(
                self.header.len(),
                |l: int|
                    if l == node.start_line && node.end_line > node.start_line {
                        self.header[l].push(
                            (
                                (node.end_line - node.start_line) as usize,
                                node.start_line,
                                node.end_line,
                            ),
                        )
                    } else {
                        self.header[l]
                    },
            ),
            scopes: Seq::new(
                self.scopes.len(),
                |l: int|
                    if node.start_line <= l <= node.end_line {
                        self.scopes[l].insert(node.start_line)
                    } else {
                        self.scopes[l]
                    },
            ),
            ..self
        }
    }

    /// The context after the nodes of `nodes` have been indexed, one after
    /// the other.
    pub open spec fn with_nodes(self, nodes: Seq<NodeView>) -> ContextView
        decreases nodes.len(),
    {
        if nodes.len() == 0 {
            self
        } else {
            self.with_nodes(nodes.drop_last()).with_node(nodes.last())
        }
    }

    /// The context after the headers have been arranged: every line has
    /// exactly one header.
    pub open spec fn arranged(self) -> ContextView {
        ContextView {
            header: Seq::new(
                self.header.len(),
                |l: int| seq![arranged_header(self.header[l], l as usize, self.header_max)],
            ),
            ..self
        }
    }

    /// The first lines of the nodes that start on `index` and of their
    /// children, the longest node first; of two nodes of one length, the
    /// one that comes later in document order first.
    pub open spec fn sampling_order(self, index: usize) -> Seq<usize> {
        let sorted = sort_by_len(gathered(self.nodes[index as int]));
        Seq::new(sorted.len(), |k: int| sorted[sorted.len() - 1 - k].0)
    }

    /// The context after the lines of `order` have been expanded one after
    /// the other, for as long as no more than `limit` lines are shown.
    pub open spec fn sample(self, order: Seq<usize>, limit: int) -> ContextView
        decreases order.len(),
    {
        if order.len() == 0 || self.show_lines.len() > limit {
            self
        } else {
            self.expand(order[0]).sample(order.drop_first(), limit)
        }
    }

    /// The context after the scope that starts on `index` has been given
    /// its child context. A scope of fewer than 5 lines beyond its first is
    /// shown whole. Of a larger one, the node and its children are
    /// expanded, the longest first, until more lines have been added than
    /// its size allows. A line on which no node starts has no scope.
    pub open spec fn child_context(self, index: usize) -> ContextView {
        if !self.has_nodes(index) {
            self
        } else {
            let last = self.last_line_of(index);
            let size = last - index;
            if size < 5 {
                self.with_selection(
                    self.show_lines.union(Set::new(|l: usize| index <= l <= last)),
                    self.done_parent_scopes,
                )
            } else {
                self.sample(
                    self.sampling_order(index),
                    self.show_lines.len() + max_to_show(size),
                )
            }
        }
    }

    /// The selection that a run starts from: the lines of interest are
    /// shown, and no line has been expanded.
    pub open spec fn seeded(self) -> ContextView {
        self.with_selection(self.lois, Set::empty())
    }

    /// The context after padding: around every line of interest, the lines
    /// of the file that are no more than `loi_pad` lines away are shown.
    pub open spec fn padded(self) -> ContextView {
        self.with_selection(
            self.show_lines.union(
                Set::new(
                    |l: usize|
                        l < self.num_lines && exists|loi: usize| #[trigger]
                            self.lois.contains(loi) && loi - self.loi_pad <= l <= loi
                                + self.loi_pad,
                ),
            ),
            self.done_parent_scopes,
        )
    }

    /// The last line of the text.
    pub open spec fn bottom_line(self) -> usize {
        (self.num_lines - 2) as usize
    }

    /// The context after anchoring: where anchoring is on, the last line
    /// of the text is shown and its enclosing scopes are expanded.
    pub open spec fn anchored(self) -> ContextView {
        if self.last_line {
            self.with_selection(
                self.show_lines.insert(self.bottom_line()),
                self.done_parent_scopes,
            ).expand(self.bottom_line())
        } else {
            self
        }
    }

    /// The context after the enclosing scopes of the lines of interest
    /// below `n` have been expanded, in rising order.
    pub open spec fn parents_upto(self, n: nat) -> ContextView
        decreases n,
    {
        if n == 0 {
            self
        } else {
            let before = self.parents_upto((n - 1) as nat);
            if self.lois.contains((n - 1) as usize) {
                before.expand((n - 1) as usize)
            } else {
                before
            }
        }
    }

    /// The context after the parent stage: where parent context is on,
    /// the enclosing scopes of every line of interest in the file are
    /// expanded.
    pub open spec fn with_parents(self) -> ContextView {
        if self.parent_context {
            self.parents_upto(self.num_lines as nat)
        } else {
            self
        }
    }

    /// The context after the lines of interest below `n` have been given
    /// their child context, in rising order.
    pub open spec fn children_upto(self, n: nat) -> ContextView
        decreases n,
    {
        if n == 0 {
            self
        } else {
            let before = self.children_upto((n - 1) as nat);
            if self.lois.contains((n - 1) as usize) {
                before.child_context((n - 1) as usize)
            } else {
                before
            }
        }
    }

    /// The context after the child stage: where child context is on,
    /// every line of interest in the file is given its child context.
    pub open spec fn with_children(self) -> ContextView {
        if self.child_context {
            self.children_upto(self.num_lines as nat)
        } else {
            self
        }
    }

    /// The context after the margin stage: the first `margin` lines are shown.
    pub open spec fn with_margin(self) -> ContextView {
        self.with_selection(
            self.show_lines.union(Set::new(|l: usize| l < self.margin)),
            self.done_parent_scopes,
        )
    }

    /// The context after gap closing: see `close_gaps`.
    pub open spec fn gaps_closed(self) -> ContextView {
        self.with_selection(close_gaps(self.show_lines), self.done_parent_scopes)
    }

    /// The context after a run of the selection. Without lines of interest
    /// nothing is shown. Otherwise the selection starts from the lines of
    /// interest and goes through padding, anchoring, the parent stage, the
    /// child stage, the margin stage and gap closing.
    pub open spec fn selected(self) -> ContextView {
        if self.lois.is_empty() {
            self.with_selection(Set::empty(), Set::empty())
        } else {
            self.seeded().padded().anchored().with_parents().with_children().with_margin().gaps_closed()
        }
    }

    /// What is rendered for line `i`: nothing for a line that is not
    /// shown, but for the first of a run of such lines the marker for
    /// lines left out; for a line of interest its marker, where lines of
    /// interest are marked; else the text of the line behind a bar.
    pub open spec fn rendered_line(self, i: int) -> Seq<char> {
        if !self.show_lines.contains(i as usize) {
            if i == 0 || self.show_lines.contains((i - 1) as usize) {
                gap_marker(self.line_number)
            } else {
                Seq::empty()
            }
        } else if self.mark_lois && self.lois.contains(i as usize) {
            loi_marker()
        } else {
            "|"@ + self.lines[i] + "\n"@
        }
    }

    /// What is rendered for the lines before `n`.
    pub open spec fn rendered_upto(self, n: int) -> Seq<char>
        decreases n,
    {
        if n <= 0 {
            Seq::empty()
        } else {
            self.rendered_upto(n - 1) + self.rendered_line(n - 1)
        }
    }

    /// The rendered selection: empty if nothing is shown, else what is
    /// rendered for the lines of the text.
    pub open spec fn rendered(self) -> Seq<char> {
        if self.show_lines.is_empty() {
            Seq::empty()
        } else {
            self.rendered_upto(self.lines.len() as int)
        }
    }

    /// The scopes of the lines before `n`, as far as they have any: for
    /// each such line its number, counted from one, and the scopes of the
    /// line that do not lie after it, in rising order, counted from one.
    pub open spec fn state_upto(self, n: nat) -> Seq<(usize, Seq<usize>)>
        decreases n,
    {
        if n == 0 {
            Seq::empty()
        } else {
            let before = self.state_upto((n - 1) as nat);
            let row = listed_upto(self.scopes[n - 1], n);
            if row.len() > 0 {
                before.push((n as usize, row))
            } else {
                before
            }
        }
    }

    /// This context with another selection.
    pub open spec fn with_selection(self, show_lines: Set<usize>, done: Set<usize>) -> ContextView {
        ContextView { show_lines, done_parent_scopes: done, ..self }
    }

    /// Whether a node starts on `line`.
    pub open spec fn has_nodes(self, line: usize) -> bool {
        line < self.nodes.len() && self.nodes[line as int].len() > 0
    }

    /// The last line of the scope that starts on `line`: the greatest last
    /// line of the nodes that start there.
    pub open spec fn last_line_of(self, line: usize) -> usize {
        max_end(self.nodes[line as int])
    }

    /// The header of the scope that starts on `line`, as its first line and
    /// the line after its last: the first header recorded for the line, or
    /// the line alone where none is recorded.
    pub open spec fn header_range(self, line: usize) -> (int, int) {
        if line < self.header.len() && self.header[line as int].len() > 0 {
            (self.header[line as int][0].1 as int, self.header[line as int][0].2 as int)
        } else {
            (line as int, line + 1)
        }
    }

    /// Whether `l` is a line that the header of the scope starting on
    /// `line` shows: a line of the header, unless the header begins on the
    /// first line of the file and such headers are not shown.
    pub open spec fn header_shows(self, line: usize, l: usize) -> bool {
        let (start, end) = self.header_range(line);
        (start > 0 || self.show_top_of_file_parent_scope) && start <= l < end
    }

    /// Whether expanding `line` shows `l`: some scope that spans `line`
    /// has `l` in its header.
    pub open spec fn expansion_shows(self, line: usize, l: usize) -> bool {
        line < self.scopes.len() && exists|s: usize|
            self.scopes[line as int].contains(s) && #[trigger] self.header_shows(s, l)
    }

    /// Whether expanding `from` leads on to `to`: anchoring is on, and `to`
    /// is the last line of a scope that spans `from`.
    pub open spec fn steps_to(self, from: usize, to: usize) -> bool {
        self.last_line && from < self.scopes.len() && exists|s: usize|
            self.scopes[from as int].contains(s) && self.has_nodes(s) && #[trigger] self.last_line_of(
                s,
            ) == to
    }

    /// A chain of lines of the file, each leading on to the next, none of
    /// them in `done`.
    pub open spec fn is_chain(self, chain: Seq<usize>, done: Set<usize>) -> bool {
        &&& chain.len() >= 1
        &&& forall|k: int|
            0 <= k < chain.len() ==> #[trigger] chain[k] < self.num_lines && !done.contains(
                chain[k],
            )
        &&& forall|k: int|
            0 <= k < chain.len() - 1 ==> self.steps_to(#[trigger] chain[k], chain[k + 1])
    }

    /// Whether the expansion of `from` gets to `to` when the lines in `done`
    /// are not expanded again.
    pub open spec fn reaches(self, done: Set<usize>, from: usize, to: usize) -> bool {
        exists|chain: Seq<usize>| #[trigger]
            self.is_chain(chain, done) && chain[0] == from && chain.last() == to
    }

    /// The lines that the expansion of `index` expands: `index` and the
    /// lines it leads on to, as far as they were not expanded before.
    pub open spec fn expanded_by(self, index: usize) -> Set<usize> {
        Set::new(|to: usize| self.reaches(self.done_parent_scopes, index, to))
    }

    /// The context after the enclosing scopes of `index` have been
    /// expanded: every line expanded is marked as done, and the headers of
    /// the scopes that span it are shown.
    pub open spec fn expand(self, index: usize) -> ContextView {
        let fresh = self.expanded_by(index);
        self.with_selection(
            self.show_lines.union(
                Set::new(
                    |l: usize|
                        exists|line: usize|
                            fresh.contains(line) && #[trigger] self.expansion_shows(line, l),
                ),
            ),
            self.done_parent_scopes.union(fresh),
        )
    }
}

/// The greatest last line of some nodes is the last line of one of them,
/// and none of them goes beyond it.
pub proof fn lemma_max_end_is_end(nodes: Seq<NodeView>)
    requires
        nodes.len() > 0,
    ensures
        exists|k: int| 0 <= k < nodes.len() && (#[trigger] nodes[k]).end_line == max_end(nodes),
        forall|k: int| 0 <= k < nodes.len() ==> (#[trigger] nodes[k]).end_line <= max_end(nodes),
    decreases nodes.len(),
{
    let front = nodes.drop_last();
    if front.len() > 0 {
        lemma_max_end_is_end(front);
        let k = choose|k: int| 0 <= k < front.len() && (#[trigger] front[k]).end_line == max_end(
            front,
        );
        assert(nodes[k] == front[k]);
        assert forall|k: int| 0 <= k < nodes.len() implies (#[trigger] nodes[k]).end_line
            <= max_end(nodes) by {
            if k < front.len() {
                assert(nodes[k] == front[k]);
            }
        }
    } else {
        assert(max_end(front) == 0);
    }
    assert(nodes[nodes.len() - 1] == nodes.last());
}

/// Sampling changes the selection only.
pub proof fn lemma_sample_keeps(context: ContextView, order: Seq<usize>, limit: int)
    ensures
        ({
            let after = context.sample(order, limit);
            after == context.with_selection(after.show_lines, after.done_parent_scopes)
        }),
    decreases order.len(),
{
    if !(order.len() == 0 || context.show_lines.len() > limit) {
        lemma_sample_keeps(context.expand(order[0]), order.drop_first(), limit);
    }
}

/// Giving a line its child context changes the selection only.
pub proof fn lemma_child_context_keeps(context: ContextView, index: usize)
    ensures
        ({
            let after = context.child_context(index);
            after == context.with_selection(after.show_lines, after.done_parent_scopes)
        }),
{
    if context.has_nodes(index) {
        let size = context.last_line_of(index) - index;
        lemma_sample_keeps(
            context,
            context.sampling_order(index),
            context.show_lines.len() + max_to_show(size),
        );
    }
}

/// A line that a line reached leads on to is reached too.
pub proof fn lemma_reaches_step(
    context: ContextView,
    done: Set<usize>,
    from: usize,
    mid: usize,
    to: usize,
)
    requires
        context.reaches(done, from, mid),
        context.steps_to(mid, to),
        to < context.num_lines,
        !done.contains(to),
    ensures
        context.reaches(done, from, to),
{
    let chain = choose|chain: Seq<usize>| #[trigger]
        context.is_chain(chain, done) && chain[0] == from && chain.last() == mid;
    let longer = chain.push(to);
    assert forall|k: int| 0 <= k < longer.len() - 1 implies context.steps_to(
        #[trigger] longer[k],
        longer[k + 1],
    ) by {
        if k < chain.len() - 1 {
            assert(context.steps_to(chain[k], chain[k + 1]));
        }
    }
    assert(context.is_chain(longer, done));
    assert(longer[0] == from && longer.last() == to);
}

/// A line of the file that is not done reaches itself.
pub proof fn lemma_reaches_self(context: ContextView, done: Set<usize>, index: usize)
    requires
        index < context.num_lines,
        !done.contains(index),
    ensures
        context.reaches(done, index, index),
{
    let chain = seq![index];
    assert(context.is_chain(chain, done));
    assert(chain[0] == index && chain.last() == index);
}

/// Only lines of the file that were not done are reached, and only from one.
pub proof fn lemma_reaches_fresh(context: ContextView, done: Set<usize>, from: usize, to: usize)
    requires
        context.reaches(done, from, to),
    ensures
        to < context.num_lines,
        !done.contains(to),
        from < context.num_lines,
        !done.contains(from),
{
    let chain = choose|chain: Seq<usize>| #[trigger]
        context.is_chain(chain, done) && chain[0] == from && chain.last() == to;
    assert(chain[0] < context.num_lines && !done.contains(chain[0]));
    assert(chain[chain.len() - 1] < context.num_lines && !done.contains(chain[chain.len() - 1]));
}

/// A set that holds the first line of a chain, and every line of the file
/// that one of its lines outside `done` leads on to, holds the whole chain.
proof fn lemma_chain_within(
    context: ContextView,
    done: Set<usize>,
    closed: Set<usize>,
    chain: Seq<usize>,
    k: int,
)
    requires
        context.is_chain(chain, done),
        closed.contains(chain[0]),
        0 <= k < chain.len(),
        forall|x: usize, w: usize|
            closed.contains(x) && !done.contains(x) && #[trigger] context.steps_to(x, w) && w
                < context.num_lines ==> closed.contains(w),
    ensures
        closed.contains(chain[k]),
    decreases k,
{
    if k > 0 {
        lemma_chain_within(context, done, closed, chain, k - 1);
        assert(context.steps_to(chain[k - 1], chain[k - 1 + 1]));
        assert(chain[k - 1] < context.num_lines && !done.contains(chain[k - 1]));
        assert(chain[k] < context.num_lines && !done.contains(chain[k]));
    }
}

/// A set that holds `index`, unless it was done or is no line of the
/// file, and every line of the file that one of its lines outside `done`
/// leads on to, holds every line that `index` reaches.
pub proof fn lemma_closed_holds_reached(
    context: ContextView,
    done: Set<usize>,
    closed: Set<usize>,
    index: usize,
)
    requires
        index < context.num_lines && !done.contains(index) ==> closed.contains(index),
        forall|x: usize, w: usize|
            closed.contains(x) && !done.contains(x) && #[trigger] context.steps_to(x, w) && w
                < context.num_lines ==> closed.contains(w),
    ensures
        forall|to: usize| #[trigger] context.reaches(done, index, to) ==> closed.contains(to),
{
    assert forall|to: usize| #[trigger] context.reaches(done, index, to) implies closed.contains(
        to,
    ) by {
        let chain = choose|chain: Seq<usize>| #[trigger]
            context.is_chain(chain, done) && chain[0] == index && chain.last() == to;
        assert(chain[0] < context.num_lines && !done.contains(chain[0]));
        lemma_chain_within(context, done, closed, chain, chain.len() - 1);
    }
}

/// What expanding a line shows, and where it leads on to, depends on the
/// index alone, not on the selection so far.
pub proof fn lemma_selection_apart(a: ContextView, b: ContextView)
    requires
        b == a.with_selection(b.show_lines, b.done_parent_scopes),
    ensures
        forall|line: usize, l: usize| #[trigger]
            a.expansion_shows(line, l) == b.expansion_shows(line, l),
        forall|from: usize, to: usize| #[trigger] a.steps_to(from, to) == b.steps_to(from, to),
{
    assert forall|line: usize, l: usize| #[trigger]
        a.expansion_shows(line, l) == b.expansion_shows(line, l) by {
        if a.expansion_shows(line, l) {
            let s = choose|s: usize|
                a.scopes[line as int].contains(s) && #[trigger] a.header_shows(s, l);
            assert(b.header_shows(s, l));
        }
        if b.expansion_shows(line, l) {
            let s = choose|s: usize|
                b.scopes[line as int].contains(s) && #[trigger] b.header_shows(s, l);
            assert(a.header_shows(s, l));
        }
    }
    assert forall|from: usize, to: usize| #[trigger]
        a.steps_to(from, to) == b.steps_to(from, to) by {
        if a.steps_to(from, to) {
            let s = choose|s: usize|
                a.scopes[from as int].contains(s) && a.has_nodes(s) && #[trigger] a.last_line_of(s)
                    == to;
            assert(b.has_nodes(s) && b.last_line_of(s) == to);
        }
        if b.steps_to(from, to) {
            let s = choose|s: usize|
                b.scopes[from as int].contains(s) && b.has_nodes(s) && #[trigger] b.last_line_of(s)
                    == to;
            assert(a.has_nodes(s) && a.last_line_of(s) == to);
        }
    }
}

} // verus!
