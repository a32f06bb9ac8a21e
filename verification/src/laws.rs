//! What holds of the index and of the selection, whatever the tree and the
//! lines of interest.

use vstd::prelude::*;
use crate::model::{
    close_gaps, gap_marker, lemma_arranged_header_idempotent, lemma_child_context_keeps,
    loi_marker, max_to_show, rendered_range, ContextView,
};
use crate::syntax_tree::NodeView;

verus! {

/// Scope coverage. After nodes have been indexed, the scopes of a line are
/// those it had before and the first line of every node indexed that spans
/// it: a node's first line is a scope of every line from its first to its
/// last, and of no other line on its account.
pub proof fn lemma_scopes_of_nodes(base: ContextView, nodes: Seq<NodeView>, line: int, s: usize)
    requires
        0 <= line < base.scopes.len(),
    ensures
        base.with_nodes(nodes).scopes.len() == base.scopes.len(),
        base.with_nodes(nodes).scopes[line].contains(s) <==> base.scopes[line].contains(s) || exists|
            k: int,
        |
            0 <= k < nodes.len() && (#[trigger] nodes[k]).start_line == s && s <= line
                <= nodes[k].end_line,
    decreases nodes.len(),
{
    if nodes.len() > 0 {
        let front = nodes.drop_last();
        lemma_scopes_of_nodes(base, front, line, s);
        let last = nodes.last();
        assert(nodes[nodes.len() - 1] == last);
        if exists|k: int|
            0 <= k < front.len() && (#[trigger] front[k]).start_line == s && s <= line
                <= front[k].end_line {
            let k = choose|k: int|
                0 <= k < front.len() && (#[trigger] front[k]).start_line == s && s <= line
                    <= front[k].end_line;
            assert(nodes[k] == front[k]);
        }
        if exists|k: int|
            0 <= k < nodes.len() && (#[trigger] nodes[k]).start_line == s && s <= line
                <= nodes[k].end_line {
            let k = choose|k: int|
                0 <= k < nodes.len() && (#[trigger] nodes[k]).start_line == s && s <= line
                    <= nodes[k].end_line;
            if k < front.len() {
                assert(nodes[k] == front[k]);
            }
        }
    }
}

/// Arranging the headers a second time changes nothing.
pub proof fn lemma_arranged_idempotent(context: ContextView)
    ensures
        context.arranged().arranged() == context.arranged(),
{
    let once = context.arranged();
    assert forall|l: int| 0 <= l < once.header.len() implies once.arranged().header[l]
        == once.header[l] by {
        lemma_arranged_header_idempotent(context.header[l], l as usize, context.header_max);
    }
    assert(once.arranged().header =~= once.header);
}

/// Expanding a line hides nothing and forgets no line that was expanded.
pub proof fn lemma_expand_grows(context: ContextView, index: usize)
    ensures
        context.show_lines.subset_of(context.expand(index).show_lines),
        context.done_parent_scopes.subset_of(context.expand(index).done_parent_scopes),
        context.expand(index) == context.with_selection(
            context.expand(index).show_lines,
            context.expand(index).done_parent_scopes,
        ),
{
}

/// The lines of `order` expanded one after the other, all of them.
pub open spec fn expand_in_turn(context: ContextView, order: Seq<usize>) -> ContextView
    decreases order.len(),
{
    if order.len() == 0 {
        context
    } else {
        expand_in_turn(context.expand(order[0]), order.drop_first())
    }
}

/// Sampling hides nothing.
pub proof fn lemma_sample_grows(context: ContextView, order: Seq<usize>, limit: int)
    ensures
        context.show_lines.subset_of(context.sample(order, limit).show_lines),
    decreases order.len(),
{
    if !(order.len() == 0 || context.show_lines.len() > limit) {
        lemma_sample_grows(context.expand(order[0]), order.drop_first(), limit);
    }
}

/// The budget of sampling. Sampling expands the first `n` lines of its
/// order, for some `n`; every one of these expansions begins with no more
/// than `limit` lines shown; and if lines of the order are left, more than
/// `limit` lines are shown in the end. So the lines shown go beyond the
/// limit by one expansion at most.
pub proof fn lemma_sample_budget(context: ContextView, order: Seq<usize>, limit: int) -> (n: int)
    ensures
        0 <= n <= order.len(),
        context.sample(order, limit) == expand_in_turn(context, order.take(n)),
        forall|j: int|
            0 <= j < n ==> (#[trigger] expand_in_turn(context, order.take(j))).show_lines.len()
                <= limit,
        n < order.len() ==> context.sample(order, limit).show_lines.len() > limit,
    decreases order.len(),
{
    if order.len() == 0 || context.show_lines.len() > limit {
        assert(order.take(0) =~= Seq::<usize>::empty());
        0
    } else {
        let next = context.expand(order[0]);
        let rest = order.drop_first();
        let m = lemma_sample_budget(next, rest, limit);
        assert(order.take(m + 1).drop_first() =~= rest.take(m));
        assert forall|j: int| 0 <= j < m + 1 implies (#[trigger] expand_in_turn(
            context,
            order.take(j),
        )).show_lines.len() <= limit by {
            if j == 0 {
                assert(order.take(0) =~= Seq::<usize>::empty());
            } else {
                assert(order.take(j).drop_first() =~= rest.take(j - 1));
                assert(expand_in_turn(context, order.take(j)) == expand_in_turn(
                    next,
                    rest.take(j - 1),
                ));
            }
        }
        m + 1
    }
}

/// Budget respect. Where the lines of the order can all be expanded, one
/// after the other, without more than `limit` lines ever being shown,
/// sampling expands them all, and no more than `limit` lines are shown in
/// the end.
pub proof fn lemma_sample_within_budget(context: ContextView, order: Seq<usize>, limit: int)
    requires
        forall|j: int|
            0 <= j <= order.len() ==> (#[trigger] expand_in_turn(
                context,
                order.take(j),
            )).show_lines.len() <= limit,
    ensures
        context.sample(order, limit) == expand_in_turn(context, order),
        context.sample(order, limit).show_lines.len() <= limit,
{
    let n = lemma_sample_budget(context, order, limit);
    assert(order.take(order.len() as int) =~= order);
    if n < order.len() {
        assert(expand_in_turn(context, order.take(n)).show_lines.len() <= limit);
    }
}

/// Giving a line its child context hides nothing.
pub proof fn lemma_child_context_grows(context: ContextView, index: usize)
    ensures
        context.show_lines.subset_of(context.child_context(index).show_lines),
{
    if context.has_nodes(index) {
        let size = context.last_line_of(index) - index;
        lemma_sample_grows(
            context,
            context.sampling_order(index),
            context.show_lines.len() + max_to_show(size),
        );
    }
}

/// The parent stage changes the selection only, and hides nothing.
pub proof fn lemma_parents_upto(context: ContextView, n: nat)
    ensures
        context.show_lines.subset_of(context.parents_upto(n).show_lines),
        context.parents_upto(n) == context.with_selection(
            context.parents_upto(n).show_lines,
            context.parents_upto(n).done_parent_scopes,
        ),
    decreases n,
{
    if n > 0 {
        lemma_parents_upto(context, (n - 1) as nat);
    }
}

/// The child stage changes the selection only, and what is shown once
/// the lines of interest below `m` have their child context is still shown
/// once those below `n` have it.
pub proof fn lemma_children_upto(context: ContextView, m: nat, n: nat)
    requires
        m <= n,
    ensures
        context.children_upto(m).show_lines.subset_of(context.children_upto(n).show_lines),
        context.children_upto(n) == context.with_selection(
            context.children_upto(n).show_lines,
            context.children_upto(n).done_parent_scopes,
        ),
    decreases n,
{
    if n > 0 {
        let before = context.children_upto((n - 1) as nat);
        if m < n {
            lemma_children_upto(context, m, (n - 1) as nat);
        } else {
            lemma_children_upto(context, (n - 1) as nat, (n - 1) as nat);
        }
        lemma_child_context_keeps(before, (n - 1) as usize);
        lemma_child_context_grows(before, (n - 1) as usize);
    }
}

/// Monotonic growth. From the lines of interest on, every stage of a run
/// shows what the stage before it showed: padding, anchoring, the parent
/// stage, the child stage, the margin stage and gap closing add lines and
/// take none away.
pub proof fn lemma_stages_grow(context: ContextView)
    ensures
        ({
            let seeded = context.seeded();
            let padded = seeded.padded();
            let anchored = padded.anchored();
            let parents = anchored.with_parents();
            let children = parents.with_children();
            let margin = children.with_margin();
            let closed = margin.gaps_closed();
            &&& seeded.show_lines == context.lois
            &&& seeded.show_lines.subset_of(padded.show_lines)
            &&& padded.show_lines.subset_of(anchored.show_lines)
            &&& anchored.show_lines.subset_of(parents.show_lines)
            &&& parents.show_lines.subset_of(children.show_lines)
            &&& children.show_lines.subset_of(margin.show_lines)
            &&& margin.show_lines.subset_of(closed.show_lines)
            &&& !context.lois.is_empty() ==> closed == context.selected()
                && context.lois.subset_of(context.selected().show_lines)
        }),
{
    let anchored = context.seeded().padded().anchored();
    lemma_parents_upto(anchored, anchored.num_lines as nat);
    let parents = anchored.with_parents();
    lemma_children_upto(parents, 0, parents.num_lines as nat);
}

/// A run changes the selection only: the settings, the text, the lines of
/// interest and the index are as before.
pub proof fn lemma_selected_keeps(context: ContextView)
    ensures
        context.selected() == context.with_selection(
            context.selected().show_lines,
            context.selected().done_parent_scopes,
        ),
{
    let anchored = context.seeded().padded().anchored();
    lemma_parents_upto(anchored, anchored.num_lines as nat);
    let parents = anchored.with_parents();
    lemma_children_upto(parents, 0, parents.num_lines as nat);
}

/// Determinism. What a run selects, and so what is rendered after it,
/// depends on the settings, the text, the lines of interest and the index
/// alone: two contexts that differ in nothing but the selection that they
/// hold give the same selection and the same rendering.
pub proof fn lemma_selection_deterministic(a: ContextView, b: ContextView)
    requires
        b == a.with_selection(b.show_lines, b.done_parent_scopes),
    ensures
        a.selected() == b.selected(),
        a.selected().rendered() == b.selected().rendered(),
{
    assert(a.seeded() == b.seeded());
    assert(a.with_selection(Set::empty(), Set::empty()) == b.with_selection(
        Set::empty(),
        Set::empty(),
    ));
}

/// Idempotence. A second run on the result of a run selects the same.
pub proof fn lemma_selected_idempotent(context: ContextView)
    ensures
        context.selected().selected() == context.selected(),
{
    lemma_selected_keeps(context);
    lemma_selection_deterministic(context, context.selected());
}

/// Small-scope inlining. Where child context is on and a line of interest
/// starts a scope that ends fewer than 5 lines after it, a run shows every
/// line of the scope.
pub proof fn lemma_small_scope_shown(context: ContextView, index: usize, l: usize)
    requires
        context.wf(),
        context.child_context,
        context.lois.contains(index),
        context.has_nodes(index),
        context.last_line_of(index) - index < 5,
        index <= l <= context.last_line_of(index),
    ensures
        context.selected().show_lines.contains(l),
{
    let anchored = context.seeded().padded().anchored();
    lemma_parents_upto(anchored, anchored.num_lines as nat);
    let parents = anchored.with_parents();
    lemma_children_upto(parents, index as nat, index as nat);
    lemma_children_upto(parents, (index + 1) as nat, parents.num_lines as nat);
    let before = parents.children_upto(index as nat);
    assert(before.has_nodes(index));
    assert(before.last_line_of(index) == context.last_line_of(index));
    assert(before.child_context(index).show_lines.contains(l));
    assert(parents.children_upto((index + 1) as nat) == before.child_context(index));
    assert(parents.with_children().show_lines.contains(l));
}

/// The margin floor. A run with a line of interest shows the first
/// `margin` lines.
pub proof fn lemma_margin_shown(context: ContextView, l: usize)
    requires
        !context.lois.is_empty(),
        l < context.margin,
    ensures
        context.selected().show_lines.contains(l),
{
    lemma_selected_keeps(context);
    let children = context.seeded().padded().anchored().with_parents().with_children();
    assert(children.with_margin().show_lines.contains(l));
}

/// Gap closing takes no line away, and what it adds lies between two
/// lines that were shown.
pub proof fn lemma_close_gaps(shown: Set<usize>, l: usize)
    ensures
        shown.contains(l) ==> close_gaps(shown).contains(l),
        close_gaps(shown).contains(l) && !shown.contains(l) ==> l > 0 && shown.contains(
            (l - 1) as usize,
        ) && l < usize::MAX && shown.contains((l + 1) as usize),
{
}

/// The markers are distinct. The marker of a line of interest is neither
/// of the markers for lines left out, and none of the three begins with
/// the bar that stands before the text of a line.
pub proof fn lemma_markers_differ()
    ensures
        loi_marker() != gap_marker(false),
        loi_marker() != gap_marker(true),
        loi_marker().len() > 0 && loi_marker()[0] == '█',
        gap_marker(false).len() > 0 && gap_marker(false)[0] == '⋮',
        gap_marker(true).len() > 0 && gap_marker(true)[0] == '.',
{
    reveal_strlit("█\n");
    reveal_strlit("⋮...\n");
    reveal_strlit("...⋮...\n");
    assert(loi_marker()[0] != gap_marker(false)[0]);
    assert(loi_marker()[0] != gap_marker(true)[0]);
}

/// What is rendered for a line that is shown is never a marker for lines
/// left out: it is the marker of a line of interest, or begins with the bar.
pub proof fn lemma_shown_line_is_no_gap(context: ContextView, i: int, line_number: bool)
    requires
        context.show_lines.contains(i as usize),
    ensures
        context.rendered_line(i).len() > 0,
        context.rendered_line(i)[0] == '█' || context.rendered_line(i)[0] == '|',
        context.rendered_line(i) != gap_marker(line_number),
        context.mark_lois && context.lois.contains(i as usize) ==> context.rendered_line(i)
            == loi_marker(),
        !(context.mark_lois && context.lois.contains(i as usize)) ==> context.rendered_line(i)
            == "|"@ + context.lines[i] + "\n"@,
{
    lemma_markers_differ();
    reveal_strlit("|");
    reveal_strlit("\n");
}

/// What is rendered up to a line is what is rendered up to an earlier
/// line, followed by what is rendered for the lines in between.
pub proof fn lemma_rendered_split(context: ContextView, a: int, b: int)
    requires
        0 <= a <= b,
    ensures
        context.rendered_upto(b) == context.rendered_upto(a) + rendered_range(context, a, b),
    decreases b - a,
{
    if a < b {
        lemma_rendered_split(context, a, b - 1);
        assert(context.rendered_upto(b) =~= context.rendered_upto(a) + rendered_range(
            context,
            a,
            b,
        ));
    } else {
        assert(context.rendered_upto(b) =~= context.rendered_upto(a) + rendered_range(
            context,
            a,
            b,
        ));
    }
}

/// One marker for a run of lines left out. Where the lines from `a` up to
/// `b` are not shown, and the run begins the file or follows a line that is
/// shown, exactly the marker for lines left out is rendered for the run:
/// between the line before it and the line after it stands one marker.
pub proof fn lemma_gap_renders_one_marker(context: ContextView, a: int, b: int)
    requires
        0 <= a < b <= usize::MAX,
        forall|l: usize| a <= l < b ==> !context.show_lines.contains(l),
        a == 0 || context.show_lines.contains((a - 1) as usize),
    ensures
        rendered_range(context, a, b) == gap_marker(context.line_number),
    decreases b - a,
{
    if a + 1 < b {
        lemma_gap_renders_one_marker(context, a, b - 1);
        assert(!context.show_lines.contains((b - 2) as usize));
        assert(!context.show_lines.contains((b - 1) as usize));
        assert(context.rendered_line(b - 1) =~= Seq::<char>::empty());
        assert(rendered_range(context, a, b) =~= gap_marker(context.line_number));
    } else {
        assert(!context.show_lines.contains(a as usize));
        assert(rendered_range(context, a, a) =~= Seq::<char>::empty());
        assert(rendered_range(context, a, b) =~= gap_marker(context.line_number));
    }
}

/// No marker between lines that are shown. Where every line from `a` up
/// to `b` is shown, what is rendered for them is, line by line, the marker
/// of a line of interest or the text of the line behind the bar, with no
/// marker for lines left out in between.
pub proof fn lemma_shown_run_has_no_gap(context: ContextView, a: int, b: int, i: int)
    requires
        0 <= a <= i < b <= usize::MAX,
        forall|l: usize| a <= l < b ==> context.show_lines.contains(l),
    ensures
        rendered_range(context, a, b) == rendered_range(context, a, i) + context.rendered_line(i)
            + rendered_range(context, i + 1, b),
        context.rendered_line(i) != gap_marker(context.line_number),
    decreases b - i,
{
    lemma_shown_line_is_no_gap(context, i, context.line_number);
    if i + 1 < b {
        lemma_shown_run_has_no_gap(context, a, b - 1, i);
        assert(rendered_range(context, a, b) =~= rendered_range(context, a, i)
            + context.rendered_line(i) + rendered_range(context, i + 1, b));
    } else {
        assert(rendered_range(context, i + 1, b) =~= Seq::<char>::empty());
        assert(rendered_range(context, a, b) =~= rendered_range(context, a, i)
            + context.rendered_line(i) + rendered_range(context, i + 1, b));
    }
}

/// No marker before a first line that is shown. Where line 0 is shown and
/// the text has a line, the rendered text begins with what is rendered for
/// line 0, which is no marker for lines left out.
pub proof fn lemma_first_line_shown(context: ContextView)
    requires
        context.show_lines.contains(0),
        context.lines.len() >= 1,
    ensures
        context.rendered() == context.rendered_line(0) + rendered_range(
            context,
            1,
            context.lines.len() as int,
        ),
        context.rendered().len() > 0,
        context.rendered()[0] == '█' || context.rendered()[0] == '|',
        context.rendered()[0] != gap_marker(false)[0],
        context.rendered()[0] != gap_marker(true)[0],
{
    lemma_markers_differ();
    lemma_shown_line_is_no_gap(context, 0, context.line_number);
    lemma_rendered_split(context, 1, context.lines.len() as int);
    assert(context.rendered_upto(0) =~= Seq::<char>::empty());
    assert(context.rendered_upto(1) =~= context.rendered_line(0));
    assert(!context.show_lines.is_empty());
}

} // verus!
