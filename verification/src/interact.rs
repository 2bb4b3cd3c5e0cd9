//! The commit information panel of the interactive viewer.

use vstd::prelude::*;
use crate::decimal::{dec_int, dec_nat, push_decimal, push_signed_decimal};
use crate::text::{byte_prefix, cuts_cleanly, push_byte_prefix, push_str};
use crate::types::{CommitNode, Forest, strings_view};

verus! {

/// A branch name as the panel shows it: the name, or nothing when unknown.
pub open spec fn branch_text(b: Option<String>) -> Seq<char> {
    match b {
        Some(name) => name@,
        None => Seq::empty(),
    }
}

/// The panel lines for a commit found under `hash`.
pub open spec fn info_lines(hash: Seq<char>, node: CommitNode) -> Seq<Seq<char>> {
    seq![
        "Commit: "@ + byte_prefix(hash, 8),
        "Author: "@ + node.author@,
        "Date:   "@ + dec_int(node.time as int),
        "Message: "@ + node.message@,
        "Branch:  "@ + branch_text(node.branch),
        "Children: "@ + dec_nat(node.children_ids@.len()),
        "Parents:  "@ + dec_nat(node.parent_ids@.len()),
        Seq::empty(),
        "---"@,
        "Press 'i' to toggle this panel."@
    ]
}

fn line(prefix: &str, rest: &str) -> (s: String)
    ensures
        s@ == prefix@ + rest@,
{
    let mut s = String::new();
    push_str(&mut s, prefix);
    push_str(&mut s, rest);
    s
}

/// The lines of the information panel for the commit with id `commit_hash`:
/// id (its first eight bytes), author, date, message, branch, numbers of
/// children and parents and a key hint; one line saying so when the forest has
/// no such commit.
pub fn get_commit_info_panel(forest: &Forest, commit_hash: &str) -> (lines: Vec<String>)
    requires
        forest.commit_map.spec_get(commit_hash@) is Some ==> cuts_cleanly(commit_hash@, 8),
    ensures
        match forest.commit_map.spec_get(commit_hash@) {
            Some(node) => strings_view(lines@) == info_lines(commit_hash@, node),
            None => strings_view(lines@) == seq!["Commit not found."@],
        },
{
    let mut lines: Vec<String> = Vec::new();
    match forest.commit_map.get(commit_hash) {
        Some(node) => {
            let mut l0 = String::new();
            push_str(&mut l0, "Commit: ");
            push_byte_prefix(&mut l0, commit_hash, 8);
            lines.push(l0);
            lines.push(line("Author: ", node.author.as_str()));
            let mut l2 = String::new();
            push_str(&mut l2, "Date:   ");
            push_signed_decimal(&mut l2, node.time);
            lines.push(l2);
            lines.push(line("Message: ", node.message.as_str()));
            let mut l4 = String::new();
            push_str(&mut l4, "Branch:  ");
            match &node.branch {
                Some(b) => push_str(&mut l4, b.as_str()),
                None => {},
            }
            assert(l4@ =~= "Branch:  "@ + branch_text(node.branch));
            lines.push(l4);
            let mut l5 = String::new();
            push_str(&mut l5, "Children: ");
            push_decimal(&mut l5, node.children_ids.len() as u64);
            lines.push(l5);
            let mut l6 = String::new();
            push_str(&mut l6, "Parents:  ");
            push_decimal(&mut l6, node.parent_ids.len() as u64);
            lines.push(l6);
            lines.push(String::new());
            lines.push(line("---", ""));
            lines.push(line("Press 'i' to toggle this panel.", ""));
            proof {
                reveal_strlit("");
            }
            assert(strings_view(lines@) =~= info_lines(commit_hash@, *node));
        },
        None => {
            lines.push(line("Commit not found.", ""));
            proof {
                reveal_strlit("");
            }
            assert(strings_view(lines@) =~= seq!["Commit not found."@]);
        },
    }
    lines
}

} // verus!
