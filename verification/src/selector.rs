//! The context selector: from the lines of interest to the lines shown.

use vstd::prelude::*;
use crate::gaps::close_small_gaps_helper;
use crate::laws::{
    lemma_child_context_grows, lemma_margin_shown, lemma_selected_keeps, lemma_small_scope_shown,
    lemma_stages_grow,
};
use crate::model::{
    gathered, lemma_child_context_keeps, lemma_closed_holds_reached, lemma_max_end_is_end,
    lemma_reaches_fresh, lemma_reaches_self, lemma_reaches_step, lemma_selection_apart, max_end,
};
use crate::order::sorted_by_len;
use crate::syntax_tree::{Node, NodeView};
use crate::sets::{
    count_left, insert_all, insert_around, insert_range, lemma_count_left_insert, members,
};
use crate::context::{node_views, TreeContext};

verus! {

broadcast use vstd::std_specs::hash::group_hash_axioms;

impl<'a> TreeContext<'a> {
    /// The last line of the scope that starts on line `index`: the
    /// greatest last line of the nodes that start there.
    pub fn get_last_line_of_scope(&self, index: usize) -> (last: usize)
        requires
            self.wf(),
            self@.has_nodes(index),
        ensures
            last == self@.last_line_of(index),
            index <= last,
    {
        let nodes = &self.nodes[index];
        let ghost views = node_views(nodes@);
        proof {
            assert(self@.nodes[index as int] == views);
            assert forall|j: int| 0 <= j < nodes@.len() implies (#[trigger] nodes@[j]).wf()
                && index <= views[j].end_line by {
                assert(self.nodes@[index as int]@[j].wf());
                assert(self@.nodes[index as int][j] == views[j]);
            }
            assert(views.take(1).drop_last() =~= Seq::<crate::syntax_tree::NodeView>::empty());
            assert(views.take(1).last() == views[0]);
        }
        let mut last: usize = nodes[0].end_line();
        let mut k: usize = 1;
        proof {
            assert(max_end(views.take(1).drop_last()) == 0);
            assert(last == views[0].end_line);
        }
        while k < nodes.len()
            invariant
                1 <= k <= nodes@.len(),
                views == node_views(nodes@),
                forall|j: int|
                    0 <= j < nodes@.len() ==> (#[trigger] nodes@[j]).wf() && index
                        <= views[j].end_line,
                last == max_end(views.take(k as int)),
                index <= last,
            decreases nodes@.len() - k,
        {
            let end: usize = nodes[k].end_line();
            proof {
                let upto = views.take(k + 1);
                assert(upto.drop_last() =~= views.take(k as int));
                assert(upto.last() == views[k as int]);
            }
            if end > last {
                last = end;
            }
            k = k + 1;
        }
        proof {
            assert(views.take(nodes@.len() as int) =~= views);
        }
        last
    }

    /// Expands one line: marks it as done, shows the headers of the
    /// scopes that span it, and notes the lines that it leads on to.
    fn expand_one(&mut self, line: usize, pending: &mut Vec<usize>)
        requires
            old(self).wf(),
            line < old(self)@.num_lines,
        ensures
            final(self).wf(),
            final(self)@ == old(self)@.with_selection(
                final(self)@.show_lines,
                old(self)@.done_parent_scopes.insert(line),
            ),
            forall|l: usize| #[trigger]
                final(self)@.show_lines.contains(l) <==> old(self)@.show_lines.contains(l) || old(
                    self,
                )@.expansion_shows(line, l),
            final(pending)@.len() >= old(pending)@.len(),
            forall|k: int| 0 <= k < old(pending)@.len() ==> final(pending)@[k] == old(pending)@[k],
            forall|k: int|
                old(pending)@.len() <= k < final(pending)@.len() ==> old(self)@.steps_to(
                    line,
                    #[trigger] final(pending)@[k],
                ),
            forall|to: usize| #[trigger]
                old(self)@.steps_to(line, to) ==> exists|k: int|
                    old(pending)@.len() <= k < final(pending)@.len() && final(pending)@[k] == to,
    {
        self.done_parent_scopes.insert(line);
        let starts = members(&self.scopes[line]);
        let ghost base = self@;
        let ghost had = pending@.len();
        proof {
            assert(base.scopes[line as int] == self.scopes@[line as int]@);
        }
        let mut k: usize = 0;
        while k < starts.len()
            invariant
                k <= starts@.len(),
                self.wf(),
                self@ == base.with_selection(self@.show_lines, base.done_parent_scopes),
                line < base.num_lines,
                starts@.to_set() == base.scopes[line as int],
                forall|l: usize| #[trigger]
                    self@.show_lines.contains(l) <==> base.show_lines.contains(l) || exists|j: int|
                        0 <= j < k && base.header_shows(#[trigger] starts@[j], l),
                had == old(pending)@.len(),
                pending@.len() >= had,
                forall|i: int| 0 <= i < had ==> pending@[i] == old(pending)@[i],
                forall|i: int|
                    had <= i < pending@.len() ==> base.steps_to(line, #[trigger] pending@[i]),
                forall|j: int|
                    0 <= j < k && base.last_line && base.has_nodes(#[trigger] starts@[j])
                        ==> exists|i: int|
                        had <= i < pending@.len() && #[trigger] pending@[i] == base.last_line_of(
                            starts@[j],
                        ),
            decreases starts@.len() - k,
        {
            let start: usize = starts[k];
            proof {
                assert(starts@.to_set().contains(start));
                assert(base.scopes[line as int].contains(start));
                assert(self@.scopes[line as int].contains(start));
                assert(start <= line);
                assert(self@.header[start as int] == self.header@[start as int]@);
                assert(self@.nodes[start as int] == node_views(self.nodes@[start as int]@));
            }
            let recorded: bool = self.header[start].len() > 0;
            let head: usize = if recorded {
                self.header[start][0].1
            } else {
                start
            };
            let tail: usize = if recorded {
                self.header[start][0].2
            } else {
                start + 1
            };
            let ghost shown = self@.show_lines;
            if head > 0 || self.show_top_of_file_parent_scope {
                insert_range(&mut self.show_lines, head, tail);
            }
            proof {
                assert forall|l: usize| #[trigger]
                    self@.show_lines.contains(l) <==> base.show_lines.contains(l) || exists|j: int|
                        0 <= j < k + 1 && base.header_shows(#[trigger] starts@[j], l) by {
                    assert(self@.show_lines.contains(l) <==> shown.contains(l)
                        || base.header_shows(start, l));
                    if base.header_shows(start, l) {
                        assert(base.header_shows(starts@[k as int], l));
                    }
                }
            }
            if self.last_line && self.nodes[start].len() > 0 {
                let last: usize = self.get_last_line_of_scope(start);
                let ghost before = pending@;
                pending.push(last);
                proof {
                    assert(base.has_nodes(start));
                    assert(base.last_line_of(start) == last);
                    assert(base.steps_to(line, last));
                    assert(pending@[before.len() as int] == last);
                    assert forall|j: int|
                        0 <= j < k + 1 && base.last_line && base.has_nodes(
                            #[trigger] starts@[j],
                        ) implies exists|i: int|
                        had <= i < pending@.len() && #[trigger] pending@[i] == base.last_line_of(
                            starts@[j],
                        ) by {
                        if j < k {
                            let i = choose|i: int|
                                had <= i < before.len() && #[trigger] before[i]
                                    == base.last_line_of(starts@[j]);
                            assert(pending@[i] == before[i]);
                        } else {
                            assert(pending@[before.len() as int] == base.last_line_of(starts@[j]));
                        }
                    }
                }
            }
            k = k + 1;
        }
        proof {
            let before = old(self)@;
            assert forall|l: usize| #[trigger]
                self@.show_lines.contains(l) <==> before.show_lines.contains(l)
                    || before.expansion_shows(line, l) by {
                if before.expansion_shows(line, l) {
                    let s = choose|s: usize|
                        before.scopes[line as int].contains(s) && #[trigger] before.header_shows(
                            s,
                            l,
                        );
                    assert(starts@.to_set().contains(s));
                    let j = choose|j: int| 0 <= j < starts@.len() && starts@[j] == s;
                    assert(base.header_shows(starts@[j], l));
                }
                if exists|j: int| 0 <= j < k && base.header_shows(#[trigger] starts@[j], l) {
                    let j = choose|j: int| 0 <= j < k && base.header_shows(#[trigger] starts@[j], l);
                    assert(starts@.to_set().contains(starts@[j]));
                    assert(before.header_shows(starts@[j], l));
                }
            }
            assert forall|to: usize| #[trigger] before.steps_to(line, to) implies exists|k: int|
                had <= k < pending@.len() && pending@[k] == to by {
                let s = choose|s: usize|
                    before.scopes[line as int].contains(s) && before.has_nodes(s)
                        && #[trigger] before.last_line_of(s) == to;
                assert(starts@.to_set().contains(s));
                let j = choose|j: int| 0 <= j < starts@.len() && starts@[j] == s;
                assert(base.has_nodes(starts@[j]));
                let i = choose|i: int|
                    had <= i < pending@.len() && #[trigger] pending@[i] == base.last_line_of(
                        starts@[j],
                    );
                assert(pending@[i] == to);
            }
            assert forall|k: int| had <= k < pending@.len() implies before.steps_to(
                line,
                #[trigger] pending@[k],
            ) by {
                assert(base.steps_to(line, pending@[k]));
                let s = choose|s: usize|
                    base.scopes[line as int].contains(s) && base.has_nodes(s)
                        && #[trigger] base.last_line_of(s) == pending@[k];
                assert(before.scopes[line as int].contains(s) && before.has_nodes(s)
                    && before.last_line_of(s) == pending@[k]);
            }
        }
    }

    /// Expands the enclosing scopes of line `index`: shows the header of
    /// every scope that spans the line and, where anchoring is on, goes on
    /// with the last line of each of those scopes. A line is expanded once
    /// in a selection, and a number that is no line of the file not at all.
    pub fn add_parent_scopes(&mut self, index: usize)
        requires
            old(self).wf(),
        ensures
            final(self).wf(),
            final(self)@ == old(self)@.expand(index),
            old(self)@.show_lines.subset_of(final(self)@.show_lines),
            old(self)@.done_parent_scopes.subset_of(final(self)@.done_parent_scopes),
    {
        let ghost start = self@;
        let ghost done0 = start.done_parent_scopes;
        let mut pending: Vec<usize> = Vec::new();
        pending.push(index);
        proof {
            assert(pending@[0] == index);
            if index < start.num_lines && !done0.contains(index) {
                lemma_reaches_self(start, done0, index);
            }
        }
        while pending.len() > 0
            invariant
                self.wf(),
                start == old(self)@,
                done0 == start.done_parent_scopes,
                self@ == start.with_selection(self@.show_lines, self@.done_parent_scopes),
                forall|x: usize| done0.contains(x) ==> self@.done_parent_scopes.contains(x),
                forall|x: usize| #[trigger]
                    self@.done_parent_scopes.contains(x) && !done0.contains(x) ==> start.reaches(
                        done0,
                        index,
                        x,
                    ),
                forall|k: int|
                    0 <= k < pending@.len() && (#[trigger] pending@[k]) < start.num_lines
                        && !done0.contains(pending@[k]) ==> start.reaches(
                        done0,
                        index,
                        pending@[k],
                    ),
                forall|x: usize, w: usize|
                    self@.done_parent_scopes.contains(x) && !done0.contains(x)
                        && #[trigger] start.steps_to(x, w) && w < start.num_lines
                        ==> self@.done_parent_scopes.contains(w) || pending@.contains(w),
                index < start.num_lines && !done0.contains(index)
                    ==> self@.done_parent_scopes.contains(index) || pending@.contains(index),
                forall|l: usize| #[trigger]
                    self@.show_lines.contains(l) <==> start.show_lines.contains(l) || exists|
                        x: usize,
                    |
                        self@.done_parent_scopes.contains(x) && !done0.contains(x)
                            && #[trigger] start.expansion_shows(x, l),
            decreases count_left(self@.done_parent_scopes, start.num_lines as nat), pending@.len(),
        {
            let ghost waiting = pending@;
            let ghost before = self@;
            let line: usize = pending.pop().unwrap();
            proof {
                assert(line == waiting[waiting.len() - 1]);
                assert forall|w: usize| waiting.contains(w) implies pending@.contains(w) || w
                    == line by {
                    let i = choose|i: int| 0 <= i < waiting.len() && waiting[i] == w;
                    if i < waiting.len() - 1 {
                        assert(pending@[i] == w);
                    }
                }
            }
            if line < self.num_lines && !self.done_parent_scopes.contains(&line) {
                let ghost rest = pending@;
                self.expand_one(line, &mut pending);
                proof {
                    lemma_selection_apart(start, before);
                    assert(start.reaches(done0, index, line));
                    lemma_count_left_insert(
                        before.done_parent_scopes,
                        line,
                        start.num_lines as nat,
                    );
                    assert forall|w: usize| rest.contains(w) implies pending@.contains(w) by {
                        let i = choose|i: int| 0 <= i < rest.len() && rest[i] == w;
                        assert(pending@[i] == w);
                    }
                    assert forall|k: int|
                        0 <= k < pending@.len() && (#[trigger] pending@[k]) < start.num_lines
                            && !done0.contains(pending@[k]) implies start.reaches(
                        done0,
                        index,
                        pending@[k],
                    ) by {
                        if k < rest.len() {
                            assert(pending@[k] == waiting[k]);
                        } else {
                            assert(before.steps_to(line, pending@[k]));
                            lemma_reaches_step(start, done0, index, line, pending@[k]);
                        }
                    }
                    assert forall|x: usize, w: usize|
                        self@.done_parent_scopes.contains(x) && !done0.contains(x)
                            && #[trigger] start.steps_to(x, w) && w
                            < start.num_lines implies self@.done_parent_scopes.contains(w)
                        || pending@.contains(w) by {
                        if x == line {
                            assert(before.steps_to(line, w));
                            let i = choose|i: int|
                                rest.len() <= i < pending@.len() && pending@[i] == w;
                            assert(pending@.contains(w));
                        } else {
                            assert(before.done_parent_scopes.contains(x));
                        }
                    }
                    assert forall|l: usize| #[trigger]
                        self@.show_lines.contains(l) <==> start.show_lines.contains(l) || exists|
                            x: usize,
                        |
                            self@.done_parent_scopes.contains(x) && !done0.contains(x)
                                && #[trigger] start.expansion_shows(x, l) by {
                        assert(self@.show_lines.contains(l) <==> before.show_lines.contains(l)
                            || before.expansion_shows(line, l));
                        if before.expansion_shows(line, l) {
                            assert(self@.done_parent_scopes.contains(line) && !done0.contains(line)
                                && start.expansion_shows(line, l));
                        }
                        if before.show_lines.contains(l) && !start.show_lines.contains(l) {
                            let x = choose|x: usize|
                                before.done_parent_scopes.contains(x) && !done0.contains(x)
                                    && #[trigger] start.expansion_shows(x, l);
                            assert(self@.done_parent_scopes.contains(x));
                        }
                        if exists|x: usize|
                            self@.done_parent_scopes.contains(x) && !done0.contains(x)
                                && #[trigger] start.expansion_shows(x, l) {
                            let x = choose|x: usize|
                                self@.done_parent_scopes.contains(x) && !done0.contains(x)
                                    && #[trigger] start.expansion_shows(x, l);
                            if x != line {
                                assert(before.done_parent_scopes.contains(x));
                            }
                        }
                    }
                }
            }
        }
        proof {
            let done = self@.done_parent_scopes;
            assert forall|x: usize, w: usize|
                done.contains(x) && !done0.contains(x) && #[trigger] start.steps_to(x, w) && w
                    < start.num_lines implies done.contains(w) by {
                assert(!pending@.contains(w));
            }
            assert(!pending@.contains(index));
            lemma_closed_holds_reached(start, done0, done, index);
            let fresh = start.expanded_by(index);
            assert forall|x: usize| fresh.contains(x) implies done.contains(x) && !done0.contains(
                x,
            ) by {
                lemma_reaches_fresh(start, done0, index, x);
            }
            let want = start.expand(index);
            assert(done =~= want.done_parent_scopes);
            assert forall|l: usize| self@.show_lines.contains(l) <==> want.show_lines.contains(
                l,
            ) by {
                if want.show_lines.contains(l) && !start.show_lines.contains(l) {
                    let x = choose|x: usize|
                        fresh.contains(x) && #[trigger] start.expansion_shows(x, l);
                    assert(done.contains(x) && !done0.contains(x));
                }
                if self@.show_lines.contains(l) && !start.show_lines.contains(l) {
                    let x = choose|x: usize|
                        done.contains(x) && !done0.contains(x) && #[trigger] start.expansion_shows(
                            x,
                            l,
                        );
                    assert(fresh.contains(x));
                }
            }
            assert(self@.show_lines =~= want.show_lines);
        }
    }

    /// The node `node`, followed by its children in document order.
    pub fn find_all_children(&self, node: Node<'a>) -> (family: Vec<Node<'a>>)
        requires
            node.wf(),
        ensures
            family@.len() == node@.children.len() + 1,
            forall|k: int|
                0 <= k < family@.len() ==> (#[trigger] family@[k]).wf() && family@[k].tree()
                    == node.tree(),
            family@[0].index() == node.index(),
            forall|k: int|
                0 <= k < node@.children.len() ==> (#[trigger] family@[k + 1]).index()
                    == node.tree().children(node.index())[k],
    {
        let ghost tree = node.tree();
        let ghost i = node.index();
        let mut family: Vec<Node<'a>> = Vec::new();
        family.push(node);
        let mut cursor = node.walk();
        proof {
            tree.lemma_children_within(i);
        }
        if cursor.goto_first_child() {
            proof {
                tree.lemma_first_child(i);
            }
            loop
                invariant_except_break
                    tree.is_child(i, cursor.current()),
                    family@.len() == tree.children_upto(i, cursor.current()).len() + 1,
                    forall|k: int|
                        0 <= k < family@.len() - 1 ==> (#[trigger] family@[k + 1]).index()
                            == tree.children_upto(i, cursor.current())[k],
                invariant
                    tree == node.tree(),
                    i == node.index(),
                    node.wf(),
                    cursor.wf(),
                    cursor.tree() == tree,
                    cursor.root() == i,
                    tree.children(i) == tree.children_upto(i, tree.subtree_end(i)),
                    family@.len() >= 1,
                    family@[0].index() == i,
                    forall|k: int|
                        0 <= k < family@.len() ==> (#[trigger] family@[k]).wf() && family@[k].tree()
                            == tree,
                ensures
                    family@.len() == tree.children(i).len() + 1,
                    forall|k: int|
                        0 <= k < family@.len() - 1 ==> (#[trigger] family@[k + 1]).index()
                            == tree.children(i)[k],
                decreases tree.size() - cursor.current(),
            {
                let ghost j = cursor.current();
                let ghost before = family@;
                family.push(cursor.node());
                proof {
                    tree.lemma_children_skip(i, j);
                    assert forall|k: int| 0 <= k < family@.len() - 1 implies (
                    #[trigger] family@[k + 1]).index() == tree.children_upto(
                        i,
                        tree.subtree_end(j),
                    )[k] by {
                        if k + 1 < before.len() {
                            assert(family@[k + 1] == before[k + 1]);
                        }
                    }
                    assert(tree.subtree_end(j) <= tree.subtree_end(i));
                    assert(j < tree.subtree_end(j));
                }
                if !cursor.goto_next_sibling() {
                    break ;
                }
                proof {
                    tree.lemma_next_sibling(i, j);
                }
            }
        }
        family
    }

    /// The spans of the nodes that start on line `index` and of their children.
    fn child_spans(&self, index: usize) -> (spans: Vec<(usize, usize)>)
        requires
            self.wf(),
            index < self@.num_lines,
        ensures
            spans@ == gathered(self@.nodes[index as int]),
            forall|i: int| 0 <= i < spans@.len() ==> (#[trigger] spans@[i]).0 <= spans@[i].1,
    {
        let nodes = &self.nodes[index];
        let ghost views = node_views(nodes@);
        proof {
            assert(self@.nodes[index as int] == views);
            assert forall|j: int| 0 <= j < nodes@.len() implies (#[trigger] nodes@[j]).wf() by {
                assert(self.nodes@[index as int]@[j].wf());
            }
            assert(views.take(0) =~= Seq::<NodeView>::empty());
        }
        let mut spans: Vec<(usize, usize)> = Vec::new();
        let mut k: usize = 0;
        while k < nodes.len()
            invariant
                k <= nodes@.len(),
                views == node_views(nodes@),
                forall|j: int| 0 <= j < nodes@.len() ==> (#[trigger] nodes@[j]).wf(),
                spans@ == gathered(views.take(k as int)),
                forall|i: int| 0 <= i < spans@.len() ==> (#[trigger] spans@[i]).0 <= spans@[i].1,
            decreases nodes@.len() - k,
        {
            let node = nodes[k];
            let family = self.find_all_children(node);
            let ghost base = spans@;
            let ghost own = seq![(node@.start_line, node@.end_line)] + node@.children;
            let mut m: usize = 0;
            proof {
                assert forall|j: int| 0 <= j < family@.len() implies ((
                #[trigger] family@[j]).start(), family@[j].end()) == own[j] by {
                    if j > 0 {
                        assert(family@[j - 1 + 1].index() == node.tree().children(
                            node.index(),
                        )[j - 1]);
                        assert(own[j] == node@.children[j - 1]);
                    } else {
                        assert(own[0] == (node@.start_line, node@.end_line));
                    }
                }
            }
            while m < family.len()
                invariant
                    m <= family@.len(),
                    family@.len() == own.len(),
                    forall|j: int| 0 <= j < family@.len() ==> (#[trigger] family@[j]).wf(),
                    forall|j: int|
                        0 <= j < family@.len() ==> ((#[trigger] family@[j]).start(), family@[j].end())
                            == own[j],
                    spans@ == base + own.take(m as int),
                    forall|i: int|
                        0 <= i < spans@.len() ==> (#[trigger] spans@[i]).0 <= spans@[i].1,
                decreases family@.len() - m,
            {
                let member = family[m];
                let first: usize = member.start_line();
                let last: usize = member.end_line();
                spans.push((first, last));
                proof {
                    assert(own.take(m + 1) =~= own.take(m as int).push(own[m as int]));
                    assert(spans@ =~= base + own.take(m + 1));
                }
                m = m + 1;
            }
            proof {
                let upto = views.take(k + 1);
                assert(upto.drop_last() =~= views.take(k as int));
                assert(upto.last() == node@);
                assert(own.take(own.len() as int) =~= own);
                assert(spans@ =~= gathered(upto));
            }
            k = k + 1;
        }
        proof {
            assert(views.take(nodes@.len() as int) =~= views);
        }
        spans
    }

    /// Gives the scope that starts on line `index` its child context: a
    /// small scope is shown whole, of a large one the headers of the
    /// largest nodes in it.
    pub fn add_child_context(&mut self, index: usize)
        requires
            old(self).wf(),
        ensures
            final(self).wf(),
            final(self)@ == old(self)@.child_context(index),
            final(self)@ == old(self)@.with_selection(
                final(self)@.show_lines,
                final(self)@.done_parent_scopes,
            ),
            old(self)@.show_lines.subset_of(final(self)@.show_lines),
            old(self)@.has_nodes(index) && old(self)@.last_line_of(index) - index < 5 ==> forall|
                l: usize,
            |
                index <= l <= old(self)@.last_line_of(index) ==> final(self)@.show_lines.contains(
                    l,
                ),
    {
        proof {
            lemma_child_context_grows(self@, index);
            lemma_child_context_keeps(self@, index);
        }
        if index >= self.num_lines {
            return ;
        }
        proof {
            assert(self@.nodes[index as int] == node_views(self.nodes@[index as int]@));
        }
        if self.nodes[index].len() == 0 {
            return ;
        }
        let last_line: usize = self.get_last_line_of_scope(index);
        let size: usize = last_line - index;
        if size < 5 {
            proof {
                let views = self@.nodes[index as int];
                lemma_max_end_is_end(views);
            }
            insert_range(&mut self.show_lines, index, last_line + 1);
            proof {
                let want = old(self)@.child_context(index);
                assert(self@.show_lines =~= want.show_lines);
            }
            return ;
        }
        let spans = self.child_spans(index);
        let sorted = sorted_by_len(&spans);
        let currently_showing: usize = self.show_lines.len();
        let tenth: usize = size / 10;
        let capped: usize = if tenth > 25 {
            25
        } else {
            tenth
        };
        let max_to_show: usize = if capped < 5 {
            5
        } else {
            capped
        };
        let ghost order = self@.sampling_order(index);
        let ghost limit = currently_showing + max_to_show;
        let ghost want = self@.sample(order, limit);
        proof {
            assert(old(self)@.child_context(index) == want);
            assert(order.skip(0) =~= order);
        }
        let mut k: usize = sorted.len();
        while k > 0
            invariant
                self.wf(),
                k <= sorted@.len(),
                order.len() == sorted@.len(),
                forall|j: int| 0 <= j < order.len() ==> order[j] == sorted@[sorted@.len() - 1 - j].0,
                limit == currently_showing + max_to_show,
                self@.sample(order.skip(sorted@.len() - k), limit) == want,
                want == old(self)@.child_context(index),
                old(self)@.show_lines.subset_of(want.show_lines),
                want == old(self)@.with_selection(want.show_lines, want.done_parent_scopes),
                old(self)@.has_nodes(index) && old(self)@.last_line_of(index) - index >= 5,
            decreases k,
        {
            let shown: usize = self.show_lines.len();
            if shown > currently_showing && shown - currently_showing > max_to_show {
                return ;
            }
            let child_start_line: usize = sorted[k - 1].0;
            proof {
                let rest = order.skip(sorted@.len() - k);
                assert(rest[0] == child_start_line);
                assert(rest.drop_first() =~= order.skip(sorted@.len() - (k - 1)));
            }
            self.add_parent_scopes(child_start_line);
            k = k - 1;
        }
    }

    /// Starts a selection: the lines of interest are shown, and no line
    /// counts as expanded.
    fn seed(&mut self)
        requires
            old(self).wf(),
        ensures
            final(self).wf(),
            final(self)@ == old(self)@.seeded(),
    {
        self.show_lines.clear();
        self.done_parent_scopes.clear();
        let lois = members(&self.lois);
        insert_all(&mut self.show_lines, &lois);
        proof {
            assert forall|l: usize| self@.show_lines.contains(l) <==> self@.lois.contains(l) by {
                assert(lois@.to_set().contains(l) <==> lois@.contains(l));
            }
            assert(self@.show_lines =~= old(self)@.seeded().show_lines);
        }
    }

    /// Shows the lines around every line of interest.
    fn pad(&mut self)
        requires
            old(self).wf(),
        ensures
            final(self).wf(),
            final(self)@ == old(self)@.padded(),
    {
        let lois = members(&self.lois);
        insert_around(&mut self.show_lines, &lois, self.loi_pad, self.num_lines);
        proof {
            let before = old(self)@;
            let want = before.padded();
            assert forall|l: usize| self@.show_lines.contains(l) <==> want.show_lines.contains(
                l,
            ) by {
                if self@.show_lines.contains(l) && !before.show_lines.contains(l) {
                    let j = choose|j: int|
                        0 <= j < lois@.len() && (#[trigger] lois@[j]) - before.loi_pad <= l
                            <= lois@[j] + before.loi_pad;
                    assert(lois@.to_set().contains(lois@[j]));
                    assert(before.lois.contains(lois@[j]));
                }
                if want.show_lines.contains(l) && !before.show_lines.contains(l) {
                    let loi = choose|loi: usize| #[trigger]
                        before.lois.contains(loi) && loi - before.loi_pad <= l <= loi
                            + before.loi_pad;
                    assert(lois@.to_set().contains(loi));
                    let j = choose|j: int| 0 <= j < lois@.len() && lois@[j] == loi;
                    assert(lois@[j] - before.loi_pad <= l <= lois@[j] + before.loi_pad);
                }
            }
            assert(self@.show_lines =~= want.show_lines);
        }
    }

    /// Where anchoring is on, shows the last line of the text and expands
    /// its enclosing scopes.
    fn anchor(&mut self)
        requires
            old(self).wf(),
        ensures
            final(self).wf(),
            final(self)@ == old(self)@.anchored(),
    {
        if self.last_line {
            let bottom_line: usize = self.num_lines - 2;
            self.show_lines.insert(bottom_line);
            self.add_parent_scopes(bottom_line);
        }
    }

    /// Where parent context is on, expands the enclosing scopes of every
    /// line of interest in the file.
    fn expand_lois(&mut self)
        requires
            old(self).wf(),
        ensures
            final(self).wf(),
            final(self)@ == old(self)@.with_parents(),
    {
        if !self.parent_context {
            return ;
        }
        let n: usize = self.num_lines;
        let ghost start = self@;
        let mut index: usize = 0;
        while index < n
            invariant
                index <= n,
                n == start.num_lines,
                start == old(self)@,
                self.wf(),
                self@ == start.parents_upto(index as nat),
                self@.lois == start.lois,
            decreases n - index,
        {
            if self.lois.contains(&index) {
                self.add_parent_scopes(index);
            }
            index = index + 1;
        }
    }

    /// Where child context is on, gives every line of interest in the file
    /// its child context.
    fn sample_lois(&mut self)
        requires
            old(self).wf(),
        ensures
            final(self).wf(),
            final(self)@ == old(self)@.with_children(),
    {
        if !self.child_context {
            return ;
        }
        let n: usize = self.num_lines;
        let ghost start = self@;
        let mut index: usize = 0;
        while index < n
            invariant
                index <= n,
                n == start.num_lines,
                start == old(self)@,
                self.wf(),
                self@ == start.children_upto(index as nat),
                self@.lois == start.lois,
            decreases n - index,
        {
            if self.lois.contains(&index) {
                self.add_child_context(index);
                proof {
                    lemma_child_context_keeps(start.children_upto(index as nat), index);
                }
            }
            index = index + 1;
        }
    }

    /// Shows the first `margin` lines.
    fn add_margin(&mut self)
        requires
            old(self).wf(),
        ensures
            final(self).wf(),
            final(self)@ == old(self)@.with_margin(),
    {
        insert_range(&mut self.show_lines, 0, self.margin);
        proof {
            assert(self@.show_lines =~= old(self)@.with_margin().show_lines);
        }
    }

    /// Shows every line that lies alone between two lines that are shown.
    pub fn close_small_gaps(&mut self)
        requires
            old(self).wf(),
        ensures
            final(self).wf(),
            final(self)@ == old(self)@.gaps_closed(),
            forall|l: usize| old(self)@.show_lines.contains(l) ==> final(self)@.show_lines.contains(l),
    {
        self.show_lines = close_small_gaps_helper(&self.show_lines);
    }

    /// Runs the selection: from the lines of interest to the lines shown.
    /// What an earlier run selected is forgotten. Without lines of
    /// interest nothing is shown.
    pub fn add_context(&mut self)
        requires
            old(self).wf(),
        ensures
            final(self).wf(),
            final(self)@ == old(self)@.selected(),
            final(self)@ == old(self)@.with_selection(
                final(self)@.show_lines,
                final(self)@.done_parent_scopes,
            ),
            old(self)@.lois.subset_of(final(self)@.show_lines),
            !old(self)@.lois.is_empty() ==> forall|l: usize|
                l < old(self)@.margin ==> final(self)@.show_lines.contains(l),
            old(self)@.child_context ==> forall|index: usize, l: usize|
                old(self)@.lois.contains(index) && old(self)@.has_nodes(index) && old(
                    self,
                )@.last_line_of(index) - index < 5 && index <= l <= old(self)@.last_line_of(index)
                    ==> final(self)@.show_lines.contains(l),
    {
        proof {
            let before = self@;
            lemma_stages_grow(before);
            lemma_selected_keeps(before);
            if !before.lois.is_empty() {
                assert forall|l: usize| l < before.margin implies before.selected().show_lines.contains(
                    l,
                ) by {
                    lemma_margin_shown(before, l);
                }
            }
            if before.child_context {
                assert forall|index: usize, l: usize|
                    before.lois.contains(index) && before.has_nodes(index) && before.last_line_of(
                        index,
                    ) - index < 5 && index <= l <= before.last_line_of(
                        index,
                    ) implies before.selected().show_lines.contains(l) by {
                    lemma_small_scope_shown(before, index, l);
                }
            }
        }
        if self.lois.is_empty() {
            self.show_lines.clear();
            self.done_parent_scopes.clear();
            return ;
        }
        self.seed();
        self.pad();
        self.anchor();
        self.expand_lois();
        self.sample_lois();
        self.add_margin();
        self.close_small_gaps();
    }
}

} // verus!
