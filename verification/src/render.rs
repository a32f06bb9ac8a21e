//! The renderer: the selection as text.

use vstd::prelude::*;
use vstd::string::StringExecFns;
use crate::text::line_texts;
use crate::context::TreeContext;

verus! {

broadcast use vstd::std_specs::hash::group_hash_axioms;

impl<'a> TreeContext<'a> {
    /// Renders the selection: the lines shown, each behind a bar, with one
    /// marker for every run of lines left out and, where lines of interest
    /// are marked, a marker in place of each of them. The result is empty
    /// if nothing is shown.
    pub fn format(&self) -> (output: String)
        requires
            self.wf(),
        ensures
            output@ == self@.rendered(),
    {
        let mut output = String::new();
        if self.show_lines.is_empty() {
            return output;
        }
        let mut dots: bool = !self.show_lines.contains(&0);
        let mut index: usize = 0;
        while index < self.lines.len()
            invariant
                index <= self.lines@.len(),
                self.wf(),
                output@ == self@.rendered_upto(index as int),
                dots == if index == 0 {
                    !self@.show_lines.contains(0)
                } else {
                    self@.show_lines.contains((index - 1) as usize)
                },
            decreases self.lines@.len() - index,
        {
            let ghost before = output@;
            proof {
                assert(self@.lines[index as int] == self.lines@[index as int]@);
            }
            if !self.show_lines.contains(&index) {
                if dots {
                    if self.line_number {
                        output.append("...⋮...\n");
                    } else {
                        output.append("⋮...\n");
                    }
                    dots = false;
                }
            } else {
                if self.mark_lois && self.lois.contains(&index) {
                    output.append("█\n");
                } else {
                    output.append("|");
                    output.append(self.lines[index].as_str());
                    output.append("\n");
                }
                dots = true;
            }
            proof {
                assert(output@ =~= before + self@.rendered_line(index as int));
            }
            index = index + 1;
        }
        proof {
            assert(line_texts(self.lines@).len() == self.lines@.len());
        }
        output
    }
}

} // verus!
