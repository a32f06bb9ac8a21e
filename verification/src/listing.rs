//! Lines of a directory listing drawn as a tree.

use vstd::prelude::*;
use vstd::string::StringExecFns;

verus! {

/// What stands in a line below an ancestor of the entry: a blank where the
/// ancestor was the last of its directory, a bar where more follow it.
pub open spec fn indent_text(is_last: bool) -> Seq<char> {
    if is_last {
        "    "@
    } else {
        "│   "@
    }
}

/// What stands before the entry's name: a corner where the entry is the
/// last of its directory, a branch where more follow it.
pub open spec fn branch_text(is_last: bool) -> Seq<char> {
    if is_last {
        "└── "@
    } else {
        "├── "@
    }
}

/// The indents for `levels`, the outermost first.
pub open spec fn indents_text(levels: Seq<bool>) -> Seq<char>
    decreases levels.len(),
{
    if levels.len() == 0 {
        Seq::empty()
    } else {
        indents_text(levels.drop_last()) + indent_text(levels.last())
    }
}

/// The line for an entry named `name`. `levels` says of each of its
/// ancestors below the root, and last of the entry itself, whether it is
/// the last of its directory; the root has no levels and stands bare.
pub open spec fn entry_text(levels: Seq<bool>, name: Seq<char>) -> Seq<char> {
    if levels.len() == 0 {
        name
    } else {
        indents_text(levels.drop_last()) + branch_text(levels.last()) + name
    }
}

/// The line for an entry of a listing: its indents, its branch and its name.
pub fn entry_line(levels: &Vec<bool>, name: &str) -> (line: String)
    ensures
        line@ == entry_text(levels@, name@),
{
    let mut line = String::new();
    if levels.len() > 0 {
        let own: usize = levels.len() - 1;
        let mut k: usize = 0;
        proof {
            assert(levels@.drop_last().take(0) =~= Seq::<bool>::empty());
        }
        while k < own
            invariant
                k <= own,
                own == levels@.len() - 1,
                line@ == indents_text(levels@.drop_last().take(k as int)),
            decreases own - k,
        {
            proof {
                let upto = levels@.drop_last().take(k + 1);
                assert(upto.drop_last() =~= levels@.drop_last().take(k as int));
                assert(upto.last() == levels@[k as int]);
            }
            if levels[k] {
                line.append("    ");
            } else {
                line.append("│   ");
            }
            k = k + 1;
        }
        proof {
            assert(levels@.drop_last().take(own as int) =~= levels@.drop_last());
        }
        if levels[own] {
            line.append("└── ");
        } else {
            line.append("├── ");
        }
    }
    line.append(name);
    proof {
        assert(line@ =~= entry_text(levels@, name@));
    }
    line
}

} // verus!
