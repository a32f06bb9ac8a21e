//! The line store: a source text cut into its lines.

use vstd::prelude::*;

verus! {

/// The lines of a text: every line feed ends one line and begins the next,
/// so a text with `n` line feeds has `n + 1` lines, some of them possibly
/// empty. The line feeds themselves belong to no line.
pub open spec fn split_lines(text: Seq<char>) -> Seq<Seq<char>>
    decreases text.len(),
{
    if text.len() == 0 {
        seq![Seq::empty()]
    } else {
        let before = split_lines(text.drop_last());
        if text.last() == '\n' {
            before.push(Seq::empty())
        } else {
            before.update(before.len() - 1, before.last().push(text.last()))
        }
    }
}

/// A text always has at least one line.
pub proof fn lemma_split_lines_len(text: Seq<char>)
    ensures
        split_lines(text).len() >= 1,
    decreases text.len(),
{
    if text.len() > 0 {
        lemma_split_lines_len(text.drop_last());
    }
}

/// The texts of a vector of lines.
pub open spec fn line_texts(lines: Seq<String>) -> Seq<Seq<char>> {
    Seq::new(lines.len(), |i: int| lines[i]@)
}

/// Calls `str::split` with the line feed as the separator and collects the
/// pieces. Not proved: that the pieces are the runs of characters between
/// the line feeds, in order, with an empty piece where two line feeds meet
/// and at either end of the text.
#[verifier::external_body]
pub(crate) fn split_on_line_feed(text: &str) -> (lines: Vec<String>)
    ensures
        line_texts(lines@) == split_lines(text@),
{
    text.split('\n').map(|piece| piece.to_string()).collect()
}

} // verus!
