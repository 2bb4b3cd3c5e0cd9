//! The inspection panel: coloured details of a selected commit or merge.
//!
//! Colour codes come from termion, which writes nothing for a colour when the
//! `NO_COLOR` environment variable is set; the contracts therefore say, for each
//! colour used, that it appears either as its escape sequence or not at all.

use vstd::prelude::*;
use crate::color::{fg_reset, fg_reset_code, fg_rgb, rgb_fg_code};
use crate::decimal::{dec_int, dec_nat, push_decimal, push_signed_decimal};
use crate::strmap::StrMap;
use crate::text::{byte_prefix, cuts_cleanly, first_line, first_line_of, push_byte_prefix, push_repeat, push_str, repeat_seq};
use crate::types::{CommitNode, Forest, MergeNode};

verus! {

/// The colour sequence when colours are on, nothing when they are off.
pub open spec fn fg_or_plain(on: bool, c: (u8, u8, u8)) -> Seq<char> {
    if on { rgb_fg_code(c.0, c.1, c.2) } else { Seq::empty() }
}

/// The colour of an author, or `default` when the palette has none.
pub open spec fn author_color_or(colors: Seq<(Seq<char>, (u8, u8, u8))>, author: Seq<char>, default: (u8, u8, u8)) -> (u8, u8, u8) {
    match crate::strmap::lookup(colors, author) {
        Some(c) => c,
        None => default,
    }
}

/// A horizontal rule of forty box-drawing characters and a line break.
pub open spec fn rule() -> Seq<char> {
    repeat_seq("─"@, 40) + "\r\n"@
}

/// The colour of the commit panel labels.
pub open spec fn label_rgb() -> (u8, u8, u8) {
    (100, 200, 255)
}

/// The commit details text, given the colour sequences of the title, the labels
/// and the author.
pub open spec fn commit_details_text(commit: CommitNode, title: Seq<char>, label: Seq<char>, author: Seq<char>) -> Seq<char> {
    let reset = fg_reset_code();
    title + "Commit Details"@ + reset + "\r\n"@
        + rule()
        + label + "ID:"@ + reset + " "@ + byte_prefix(commit.id@, 7) + "\r\n"@
        + label + "Author:"@ + author + " "@ + commit.author@ + reset + "\r\n"@
        + label + "Date:"@ + reset + " "@ + dec_int(commit.time as int) + "\r\n"@
        + label + "Message:"@ + reset + " "@ + first_line(commit.message@) + "\r\n"@
        + label + "Parents:"@ + reset + " "@ + dec_nat(commit.parent_ids@.len()) + "\r\n"@
        + rule()
}

/// Whether `s` is the commit details text with each colour on or off.
pub open spec fn is_commit_details(s: Seq<char>, commit: CommitNode, colors: Seq<(Seq<char>, (u8, u8, u8))>) -> bool {
    exists|t: bool, l: bool, a: bool| s == #[trigger] commit_details_text(
        commit,
        fg_or_plain(t, (255, 255, 255)),
        fg_or_plain(l, label_rgb()),
        fg_or_plain(a, author_color_or(colors, commit.author@, (200, 200, 200))),
    )
}

/// A colour's escape sequence as termion writes it.
fn fg_code(c: (u8, u8, u8)) -> (code: String)
    ensures
        exists|on: bool| code@ == fg_or_plain(on, c),
{
    let code = fg_rgb(c.0, c.1, c.2);
    proof {
        if code@ == rgb_fg_code(c.0, c.1, c.2) {
            assert(code@ == fg_or_plain(true, c));
        } else {
            assert(code@ == fg_or_plain(false, c));
        }
    }
    code
}

/// The colour of `author` in the palette, or `default`.
pub fn author_color(colors: &StrMap<(u8, u8, u8)>, author: &str, default: (u8, u8, u8)) -> (c: (u8, u8, u8))
    ensures
        c == author_color_or(colors@, author@, default),
{
    match colors.get(author) {
        Some(c) => *c,
        None => default,
    }
}

fn push_rule(s: &mut String)
    ensures
        final(s)@ == old(s)@ + rule(),
{
    push_repeat(s, "─", 40);
    push_str(s, "\r\n");
}

/// The commit details text with the given colour sequences (title, labels, author)
/// and reset sequence.
pub fn commit_details_with(commit: &CommitNode, title: &str, label: &str, author: &str, reset: &str) -> (s: String)
    requires
        reset@ == fg_reset_code(),
    ensures
        s@ == commit_details_text(*commit, title@, label@, author@),
{
    let mut s = String::new();
    push_str(&mut s, title);
    push_str(&mut s, "Commit Details");
    push_str(&mut s, reset);
    push_str(&mut s, "\r\n");
    push_rule(&mut s);
    push_str(&mut s, label);
    push_str(&mut s, "ID:");
    push_str(&mut s, reset);
    push_str(&mut s, " ");
    push_byte_prefix(&mut s, commit.id.as_str(), 7);
    push_str(&mut s, "\r\n");
    push_str(&mut s, label);
    push_str(&mut s, "Author:");
    push_str(&mut s, author);
    push_str(&mut s, " ");
    push_str(&mut s, commit.author.as_str());
    push_str(&mut s, reset);
    push_str(&mut s, "\r\n");
    push_str(&mut s, label);
    push_str(&mut s, "Date:");
    push_str(&mut s, reset);
    push_str(&mut s, " ");
    push_signed_decimal(&mut s, commit.time);
    push_str(&mut s, "\r\n");
    push_str(&mut s, label);
    push_str(&mut s, "Message:");
    push_str(&mut s, reset);
    push_str(&mut s, " ");
    let first = first_line_of(commit.message.as_str());
    push_str(&mut s, first.as_str());
    push_str(&mut s, "\r\n");
    push_str(&mut s, label);
    push_str(&mut s, "Parents:");
    push_str(&mut s, reset);
    push_str(&mut s, " ");
    push_decimal(&mut s, commit.parent_ids.len() as u64);
    push_str(&mut s, "\r\n");
    push_rule(&mut s);
    assert(s@ =~= commit_details_text(*commit, title@, label@, author@));
    s
}

/// Formats the details of a commit for the inspection panel: a title, the short
/// id (its first seven bytes), the author in the author's colour (grey when the
/// palette has none), the date, the first line of the message and the number
/// of parents, between two rules.
pub fn format_commit_details(forest: &Forest, commit: &CommitNode, author_colors: &StrMap<(u8, u8, u8)>) -> (s: String)
    requires
        cuts_cleanly(commit.id@, 7),
    ensures
        is_commit_details(s@, *commit, author_colors@),
{
    let title = fg_code((255, 255, 255));
    let label = fg_code((100, 200, 255));
    let ac = author_color(author_colors, commit.author.as_str(), (200, 200, 200));
    let author = fg_code(ac);
    let reset = fg_reset();
    let s = commit_details_with(commit, title.as_str(), label.as_str(), author.as_str(), reset.as_str());
    proof {
        let t = choose|on: bool| title@ == fg_or_plain(on, (255, 255, 255));
        let l = choose|on: bool| label@ == fg_or_plain(on, (100, 200, 255));
        let a = choose|on: bool| author@ == fg_or_plain(on, ac);
        assert(s@ == commit_details_text(
            *commit,
            fg_or_plain(t, (255, 255, 255)),
            fg_or_plain(l, label_rgb()),
            fg_or_plain(a, author_color_or(author_colors@, commit.author@, (200, 200, 200))),
        ));
    }
    s
}


/// The colour of the merge panel title and labels.
pub open spec fn merge_rgb() -> (u8, u8, u8) {
    (255, 200, 100)
}

/// The author shown for a merged branch: the author of the parent commit, or
/// "unknown" when the forest does not hold it.
pub open spec fn branch_author(commits: Seq<(Seq<char>, CommitNode)>, parent: Seq<char>) -> Seq<char> {
    match crate::strmap::lookup(commits, parent) {
        Some(node) => node.author@,
        None => "unknown"@,
    }
}

/// One merged-branch line.
pub open spec fn branch_line(id: Seq<char>, author: Seq<char>, code: Seq<char>) -> Seq<char> {
    "  - "@ + id + " (author: "@ + code + author + fg_reset_code() + ")\r\n"@
}

/// The merged-branch lines of the parents `pids`, the author of the `i`-th in
/// the colour sequence `codes[i]`.
pub open spec fn branch_lines_with(
    commits: Seq<(Seq<char>, CommitNode)>,
    pids: Seq<Seq<char>>,
    codes: Seq<Seq<char>>,
) -> Seq<char>
    decreases pids.len(),
{
    if pids.len() == 0 {
        Seq::empty()
    } else {
        let id = pids.last();
        branch_lines_with(commits, pids.drop_last(), codes) + branch_line(id, branch_author(commits, id), codes[pids.len() - 1])
    }
}

/// The colour sequences of the merged-branch authors, each on or off as `on` says.
pub open spec fn branch_codes(
    commits: Seq<(Seq<char>, CommitNode)>,
    colors: Seq<(Seq<char>, (u8, u8, u8))>,
    pids: Seq<Seq<char>>,
    on: Seq<bool>,
) -> Seq<Seq<char>> {
    Seq::new(pids.len(), |i: int| fg_or_plain(on[i], author_color_or(colors, branch_author(commits, pids[i]), (200, 200, 200))))
}

/// The merge details text with the title colour sequence `title` and the author
/// colour sequences `codes`.
pub open spec fn merge_details_text_with(
    commits: Seq<(Seq<char>, CommitNode)>,
    merge: MergeNode,
    title: Seq<char>,
    codes: Seq<Seq<char>>,
) -> Seq<char> {
    let reset = fg_reset_code();
    title + "Merge Details"@ + reset + "\r\n"@
        + rule()
        + title + "Merge ID:"@ + reset + " "@ + merge.id@ + "\r\n"@
        + title + "Branches merged:"@ + reset + " "@ + dec_nat(merge.parent_ids@.len()) + "\r\n"@
        + branch_lines_with(commits, crate::types::strings_view(merge.parent_ids@), codes)
        + rule()
}

/// The merge details text with the title colour on or off and the branch author
/// colours as `on` says.
pub open spec fn merge_details_text(
    commits: Seq<(Seq<char>, CommitNode)>,
    colors: Seq<(Seq<char>, (u8, u8, u8))>,
    merge: MergeNode,
    title_on: bool,
    on: Seq<bool>,
) -> Seq<char> {
    merge_details_text_with(
        commits,
        merge,
        fg_or_plain(title_on, merge_rgb()),
        branch_codes(commits, colors, crate::types::strings_view(merge.parent_ids@), on),
    )
}

/// Appends one merged-branch line.
fn push_branch_line(s: &mut String, id: &str, code: &str, author: &str, reset: &str)
    requires
        reset@ == fg_reset_code(),
    ensures
        final(s)@ == old(s)@ + branch_line(id@, author@, code@),
{
    push_str(s, "  - ");
    push_str(s, id);
    push_str(s, " (author: ");
    push_str(s, code);
    push_str(s, author);
    push_str(s, reset);
    push_str(s, ")\r\n");
    assert(final(s)@ =~= old(s)@ + branch_line(id@, author@, code@));
}

/// Whether `s` is the merge details text with each colour on or off.
pub open spec fn is_merge_details(s: Seq<char>, forest: &Forest, merge: MergeNode, colors: Seq<(Seq<char>, (u8, u8, u8))>) -> bool {
    exists|t: bool, on: Seq<bool>| on.len() == merge.parent_ids@.len() && s == #[trigger] merge_details_text(forest.commit_map@, colors, merge, t, on)
}

/// The merge details text with the given title colour sequence, reset sequence
/// and one author colour sequence per parent: a title, the merge id, the number
/// of merged branches and one line per merged branch (parent) with its author,
/// between two rules.
pub fn merge_details_with(forest: &Forest, merge: &MergeNode, title: &str, reset: &str, codes: &Vec<String>) -> (s: String)
    requires
        reset@ == fg_reset_code(),
        codes@.len() == merge.parent_ids@.len(),
    ensures
        s@ == merge_details_text_with(forest.commit_map@, *merge, title@, crate::types::strings_view(codes@)),
{
    let mut s = String::new();
    push_str(&mut s, title);
    push_str(&mut s, "Merge Details");
    push_str(&mut s, reset);
    push_str(&mut s, "\r\n");
    push_rule(&mut s);
    push_str(&mut s, title);
    push_str(&mut s, "Merge ID:");
    push_str(&mut s, reset);
    push_str(&mut s, " ");
    push_str(&mut s, merge.id.as_str());
    push_str(&mut s, "\r\n");
    push_str(&mut s, title);
    push_str(&mut s, "Branches merged:");
    push_str(&mut s, reset);
    push_str(&mut s, " ");
    push_decimal(&mut s, merge.parent_ids.len() as u64);
    push_str(&mut s, "\r\n");
    let ghost head = s@;
    let ghost pids = crate::types::strings_view(merge.parent_ids@);
    let ghost cv = crate::types::strings_view(codes@);
    let mut k: usize = 0;
    while k < merge.parent_ids.len()
        invariant
            k <= merge.parent_ids@.len(),
            codes@.len() == merge.parent_ids@.len(),
            pids == crate::types::strings_view(merge.parent_ids@),
            cv == crate::types::strings_view(codes@),
            reset@ == fg_reset_code(),
            s@ == head + branch_lines_with(forest.commit_map@, pids.subrange(0, k as int), cv),
        decreases merge.parent_ids.len() - k,
    {
        let pid = &merge.parent_ids[k];
        let author: String = match forest.commit_map.get(pid.as_str()) {
            Some(node) => node.author.clone(),
            None => {
                let mut u = String::new();
                push_str(&mut u, "unknown");
                u
            },
        };
        assert(author@ == branch_author(forest.commit_map@, pid@));
        push_branch_line(&mut s, pid.as_str(), codes[k].as_str(), author.as_str(), reset);
        proof {
            let sub = pids.subrange(0, k + 1);
            assert(sub.drop_last() =~= pids.subrange(0, k as int));
            assert(sub.last() == pid@);
            assert(cv[k as int] == codes@[k as int]@);
            assert(s@ =~= head + branch_lines_with(forest.commit_map@, sub, cv));
        }
        k = k + 1;
    }
    push_rule(&mut s);
    proof {
        assert(pids.subrange(0, k as int) =~= pids);
        assert(s@ =~= merge_details_text_with(forest.commit_map@, *merge, title@, cv));
    }
    s
}

/// Formats the details of a merge for the inspection panel: a title, the merge id,
/// the number of merged branches and one line per merged branch (parent) with its
/// author in the author's colour (grey when the palette has none), between two rules.
pub fn format_merge_details(forest: &Forest, merge: &MergeNode, author_colors: &StrMap<(u8, u8, u8)>) -> (s: String)
    ensures
        is_merge_details(s@, forest, *merge, author_colors@),
{
    let title = fg_code((255, 200, 100));
    let ghost t = choose|on: bool| title@ == fg_or_plain(on, (255, 200, 100));
    let reset = fg_reset();
    let ghost pids = crate::types::strings_view(merge.parent_ids@);
    let ghost mut on: Seq<bool> = Seq::empty();
    let mut codes: Vec<String> = Vec::new();
    let mut k: usize = 0;
    while k < merge.parent_ids.len()
        invariant
            k <= merge.parent_ids@.len(),
            pids == crate::types::strings_view(merge.parent_ids@),
            on.len() == k,
            crate::types::strings_view(codes@) == branch_codes(forest.commit_map@, author_colors@, pids.subrange(0, k as int), on),
        decreases merge.parent_ids.len() - k,
    {
        let pid = &merge.parent_ids[k];
        let c = match forest.commit_map.get(pid.as_str()) {
            Some(node) => author_color(author_colors, node.author.as_str(), (200, 200, 200)),
            None => author_color(author_colors, "unknown", (200, 200, 200)),
        };
        assert(c == author_color_or(author_colors@, branch_author(forest.commit_map@, pid@), (200, 200, 200)));
        let code = fg_code(c);
        let ghost b = choose|b: bool| code@ == fg_or_plain(b, c);
        let ghost before = codes@;
        let ghost old_on = on;
        codes.push(code);
        proof {
            on = on.push(b);
            assert(pids[k as int] == pid@);
            let now = crate::types::strings_view(codes@);
            let prev = branch_codes(forest.commit_map@, author_colors@, pids.subrange(0, k as int), old_on);
            let want = branch_codes(forest.commit_map@, author_colors@, pids.subrange(0, k + 1), on);
            assert(pids.len() == merge.parent_ids@.len());
            assert(prev.len() == k);
            assert(crate::types::strings_view(before).len() == before.len());
            assert(codes@ == before.push(code));
            assert(now.len() == k + 1);
            assert(want.len() == k + 1);
            assert forall|i: int| 0 <= i < now.len() implies now[i] == want[i] by {
                if i < k {
                    assert(now[i] == crate::types::strings_view(before)[i]);
                    assert(crate::types::strings_view(before)[i] == prev[i]);
                    assert(on[i] == old_on[i]);
                    assert(pids.subrange(0, k as int)[i] == pids.subrange(0, k + 1)[i]);
                } else {
                    assert(now[i] == code@);
                    assert(on[i] == b);
                }
            }
            assert(now =~= want);
        }
        k = k + 1;
    }
    let s = merge_details_with(forest, merge, title.as_str(), reset.as_str(), &codes);
    proof {
        assert(pids.subrange(0, k as int) =~= pids);
        assert(s@ == merge_details_text(forest.commit_map@, author_colors@, *merge, t, on));
    }
    s
}

/// The colour of the panel hints.
pub open spec fn hint_rgb() -> (u8, u8, u8) {
    (150, 150, 150)
}

/// The text shown when nothing is selected, with its colour on or off.
pub open spec fn no_selection_text(on: bool) -> Seq<char> {
    fg_or_plain(on, hint_rgb()) + "No commit selected. Use arrow keys to navigate and click on a leaf to inspect."@ + fg_reset_code() + "\r\n"@
}

/// The panel footer, with its colour on or off.
pub open spec fn footer_text(on: bool) -> Seq<char> {
    fg_or_plain(on, (100, 100, 100)) + "Press 'i' to toggle this panel, 'q' to quit."@ + fg_reset_code() + "\r\n"@
}

/// A panel body followed by the footer.
pub open spec fn with_footer(body: Seq<char>, f: bool) -> Seq<char> {
    body + footer_text(f)
}

/// The full inspection panel: the selected commit's details, else the selected
/// merge's details, else a hint that nothing is selected; then a footer with the
/// key bindings.
pub fn format_inspection_panel(
    forest: &Forest,
    selected_commit: Option<&CommitNode>,
    selected_merge: Option<&MergeNode>,
    author_colors: &StrMap<(u8, u8, u8)>,
) -> (s: String)
    requires
        selected_commit matches Some(c) ==> cuts_cleanly(c.id@, 7),
    ensures
        exists|body: Seq<char>, f: bool| {
            &&& s@ == #[trigger] with_footer(body, f)
            &&& match selected_commit {
                Some(c) => is_commit_details(body, *c, author_colors@),
                None => match selected_merge {
                    Some(m) => is_merge_details(body, forest, *m, author_colors@),
                    None => exists|on: bool| body == no_selection_text(on),
                },
            }
        },
{
    let mut panel = String::new();
    if let Some(commit) = selected_commit {
        panel = format_commit_details(forest, commit, author_colors);
    } else if let Some(merge) = selected_merge {
        panel = format_merge_details(forest, merge, author_colors);
    } else {
        let hint = fg_code((150, 150, 150));
        let reset = fg_reset();
        push_str(&mut panel, hint.as_str());
        push_str(&mut panel, "No commit selected. Use arrow keys to navigate and click on a leaf to inspect.");
        push_str(&mut panel, reset.as_str());
        push_str(&mut panel, "\r\n");
        proof {
            let b = choose|b: bool| hint@ == fg_or_plain(b, (150, 150, 150));
            assert(panel@ =~= no_selection_text(b));
        }
    }
    let ghost body = panel@;
    let foot = fg_code((100, 100, 100));
    let reset = fg_reset();
    push_str(&mut panel, foot.as_str());
    push_str(&mut panel, "Press 'i' to toggle this panel, 'q' to quit.");
    push_str(&mut panel, reset.as_str());
    push_str(&mut panel, "\r\n");
    proof {
        let f = choose|b: bool| foot@ == fg_or_plain(b, (100, 100, 100));
        assert(panel@ =~= with_footer(body, f));
    }
    panel
}

} // verus!
