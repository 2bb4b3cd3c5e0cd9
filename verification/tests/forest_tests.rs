use git_forest::color::assign_author_colors;
use git_forest::decimal::decimal_string;
use git_forest::inspect::{commit_details_with, format_commit_details, format_inspection_panel, format_merge_details, merge_details_with};
use git_forest::layout::spread_layout;
use git_forest::interact::get_commit_info_panel;
use git_forest::render::{render_forest_to_terminal, LayoutResult};
use git_forest::scan::{build_forest, CommitRecord};
use git_forest::strmap::StrMap;
use git_forest::summary::{render_summary, summary_stats};
use git_forest::svg::{svg_scene, sort_commits_by_time};
use git_forest::types::{CommitNode, Forest, MergeNode, Tree};

fn rec(id: &str, author: &str, time: i64, parents: &[&str]) -> CommitRecord {
    CommitRecord {
        id: id.to_string(),
        author: author.to_string(),
        message: format!("commit {}", id),
        time,
        parent_ids: parents.iter().map(|p| p.to_string()).collect(),
    }
}

fn node(id: &str, author: &str, message: &str, time: i64, parents: &[&str]) -> CommitNode {
    CommitNode {
        id: id.to_string(),
        author: author.to_string(),
        message: message.to_string(),
        time,
        parent_ids: parents.iter().map(|p| p.to_string()).collect(),
        children_ids: Vec::new(),
        branch: None,
    }
}

fn sample_records() -> Vec<CommitRecord> {
    vec![
        rec("m", "ann", 50, &["c3", "f1"]),
        rec("f1", "bob", 40, &["c1"]),
        rec("c3", "ann", 30, &["c2"]),
        rec("c2", "ann", 20, &["c1"]),
        rec("c1", "bob", 10, &[]),
    ]
}

fn empty_layout() -> LayoutResult {
    LayoutResult {
        tree_centers: Vec::new(),
        merge_positions: StrMap::new(),
        node_positions: StrMap::new(),
    }
}

#[test]
fn build_forest_links_children_and_trees() {
    let records = sample_records();
    let scan = build_forest(&records);
    assert_eq!(scan.commit_count, 5);
    assert_eq!(scan.branch_count, 2);
    let c1 = scan.forest.commit_map.get("c1").unwrap();
    assert_eq!(c1.children_ids, vec!["f1".to_string(), "c2".to_string()]);
    assert_eq!(scan.forest.commit_map.get("m").unwrap().children_ids.len(), 0);
    assert_eq!(scan.forest.commit_map.get("c3").unwrap().children_ids, vec!["m".to_string()]);
    assert_eq!(scan.trees[0].commits, vec!["m", "c3", "c2", "c1"]);
    assert_eq!(scan.trees[0].tip, "m");
    assert_eq!(scan.trees[0].root, "c1");
    assert_eq!(scan.trees[0].author, "ann");
    assert_eq!(scan.trees[0].commit_count, 4);
    assert_eq!(scan.trees[1].commits, vec!["f1"]);
    assert_eq!(scan.forest.trees.len(), 2);
    assert_eq!(scan.forest.merge_nodes.len(), 1);
    let m = &scan.forest.merge_nodes[0];
    assert_eq!(m.id, "m");
    assert_eq!(m.parent_ids, vec!["c3", "f1"]);
    assert_eq!(m.degree, 2);
    assert_eq!(scan.forest.branch_map.get("ann").unwrap(), &vec!["m".to_string(), "c3".to_string(), "c2".to_string()]);
    assert_eq!(scan.forest.branch_map.get("bob").unwrap(), &vec!["f1".to_string(), "c1".to_string()]);
}

#[test]
fn build_forest_unknown_parents_are_not_merge_parents() {
    let records = vec![rec("x", "eve", 5, &["gone", "y"]), rec("y", "eve", 1, &[])];
    let scan = build_forest(&records);
    assert_eq!(scan.forest.merge_nodes[0].parent_ids, vec!["y"]);
    assert_eq!(scan.forest.merge_nodes[0].degree, 2);
    // the first parent is not a commit of the scan, so x stands alone
    assert_eq!(scan.trees.len(), 2);
    assert_eq!(scan.trees[0].commits, vec!["x"]);
}

#[test]
fn build_forest_empty() {
    let scan = build_forest(&Vec::new());
    assert_eq!(scan.commit_count, 0);
    assert_eq!(scan.branch_count, 0);
    assert!(scan.forest.commit_map.is_empty());
}

#[test]
fn every_commit_in_exactly_one_tree() {
    let scan = build_forest(&sample_records());
    for id in ["m", "f1", "c3", "c2", "c1"] {
        let places: usize = scan.trees.iter().map(|t| t.commits.iter().filter(|c| c.as_str() == id).count()).sum();
        assert_eq!(places, 1);
    }
}

#[test]
fn parents_and_children_agree() {
    let scan = build_forest(&sample_records());
    for i in 0..scan.forest.commit_map.len() {
        let n = scan.forest.commit_map.value_at(i);
        for p in &n.parent_ids {
            if let Some(parent) = scan.forest.commit_map.get(p) {
                assert!(parent.children_ids.contains(&n.id));
            }
        }
    }
}

#[test]
fn info_panel_lines() {
    let scan = build_forest(&sample_records());
    let lines = get_commit_info_panel(&scan.forest, "c1");
    assert_eq!(lines[0], "Commit: c1");
    assert_eq!(lines[1], "Author: bob");
    assert_eq!(lines[2], "Date:   10");
    assert_eq!(lines[3], "Message: commit c1");
    assert_eq!(lines[4], "Branch:  ");
    assert_eq!(lines[5], "Children: 2");
    assert_eq!(lines[6], "Parents:  0");
    assert_eq!(lines[7], "");
    assert_eq!(lines[8], "---");
    assert_eq!(lines[9], "Press 'i' to toggle this panel.");
    assert_eq!(lines.len(), 10);
    let missing = get_commit_info_panel(&scan.forest, "nope");
    assert_eq!(missing, vec!["Commit not found.".to_string()]);
}

#[test]
fn info_panel_truncates_long_ids() {
    let mut forest = Forest::new();
    forest.commit_map.insert("0123456789abcdef".to_string(), node("0123456789abcdef", "al", "m", -7, &[]));
    let lines = get_commit_info_panel(&forest, "0123456789abcdef");
    assert_eq!(lines[0], "Commit: 01234567");
    assert_eq!(lines[2], "Date:   -7");
}

#[test]
fn commit_details_text() {
    let forest = Forest::new();
    let mut colors = StrMap::new();
    colors.insert("al".to_string(), (1, 2, 3));
    let c = node("0123456789", "al", "first line\r\nsecond", 42, &["p1", "p2"]);
    let s = format_commit_details(&forest, &c, &colors);
    assert!(s.contains("Commit Details"));
    assert!(s.contains(" 0123456\r\n"));
    assert!(!s.contains("01234567"));
    assert!(s.contains("al\x1b[39m\r\n"));
    assert!(s.contains(" 42\r\n"));
    assert!(s.contains(" first line\r\n"));
    assert!(!s.contains("second"));
    assert!(s.contains("Parents:\x1b[39m 2\r\n"));
    assert_eq!(s.matches(&"─".repeat(40)).count(), 2);
    if s.contains("\x1b[38;2;") {
        assert!(s.contains("\x1b[38;2;1;2;3m al"));
    }
}

#[test]
fn short_ids_are_cut_by_bytes() {
    let forest = Forest::new();
    let colors = StrMap::new();
    // Five one-byte characters and a two-byte one make the first seven bytes.
    let c = node("abcde\u{e9}xyz", "al", "m", 1, &[]);
    let s = format_commit_details(&forest, &c, &colors);
    assert!(s.contains(" abcde\u{e9}\r\n"));
    let mut forest = Forest::new();
    forest.commit_map.insert("abcdef\u{e9}gh".to_string(), node("abcdef\u{e9}gh", "al", "m", 1, &[]));
    let lines = get_commit_info_panel(&forest, "abcdef\u{e9}gh");
    assert_eq!(lines[0], "Commit: abcdef\u{e9}");
    // A two-byte id is shown whole.
    let c = node("\u{e9}", "al", "m", 1, &[]);
    let s = format_commit_details(&Forest::new(), &c, &colors);
    assert!(s.contains(" \u{e9}\r\n"));
}

#[test]
fn commit_details_keep_a_final_carriage_return() {
    let forest = Forest::new();
    let colors = StrMap::new();
    let c = node("abc", "al", "only line\r", 7, &[]);
    let s = format_commit_details(&forest, &c, &colors);
    assert!(s.contains(" only line\r\r\n"));
    let c = node("abc", "al", "", 7, &[]);
    let s = format_commit_details(&forest, &c, &colors);
    assert!(s.contains("Message:\x1b[39m \r\n") || s.contains("Message: \r\n"));
}

#[test]
fn merge_details_text() {
    let mut forest = Forest::new();
    forest.commit_map.insert("p1".to_string(), node("p1", "zed", "x", 1, &[]));
    let colors = StrMap::new();
    let m = MergeNode {
        id: "mm".to_string(),
        parent_ids: vec!["p1".to_string(), "p9".to_string()],
        child_ids: Vec::new(),
        commit: node("mm", "zed", "merge", 2, &["p1", "p9"]),
        degree: 2,
    };
    let s = format_merge_details(&forest, &m, &colors);
    assert!(s.contains("Merge Details"));
    assert!(s.contains("Merge ID:\x1b[39m mm\r\n"));
    assert!(s.contains("Branches merged:\x1b[39m 2\r\n"));
    assert!(s.contains("  - p1 (author: "));
    assert!(s.contains("zed\x1b[39m)\r\n"));
    assert!(s.contains("unknown\x1b[39m)\r\n"));
}

#[test]
fn details_with_given_colour_codes() {
    let c = node("0123456789", "al", "first\nsecond", 42, &["p1"]);
    let s = commit_details_with(&c, "<T>", "<L>", "<A>", "\x1b[39m");
    let rule = format!("{}\r\n", "─".repeat(40));
    let want = format!(
        "<T>Commit Details\x1b[39m\r\n{rule}<L>ID:\x1b[39m 0123456\r\n<L>Author:<A> al\x1b[39m\r\n<L>Date:\x1b[39m 42\r\n<L>Message:\x1b[39m first\r\n<L>Parents:\x1b[39m 1\r\n{rule}"
    );
    assert_eq!(s, want);

    let mut forest = Forest::new();
    forest.commit_map.insert("p1".to_string(), node("p1", "zed", "x", 1, &[]));
    let m = MergeNode {
        id: "mm".to_string(),
        parent_ids: vec!["p1".to_string(), "p9".to_string()],
        child_ids: Vec::new(),
        commit: node("mm", "zed", "merge", 2, &["p1", "p9"]),
        degree: 2,
    };
    let codes = vec!["<1>".to_string(), "<2>".to_string()];
    let s = merge_details_with(&forest, &m, "<T>", "\x1b[39m", &codes);
    let want = format!(
        "<T>Merge Details\x1b[39m\r\n{rule}<T>Merge ID:\x1b[39m mm\r\n<T>Branches merged:\x1b[39m 2\r\n  - p1 (author: <1>zed\x1b[39m)\r\n  - p9 (author: <2>unknown\x1b[39m)\r\n{rule}"
    );
    assert_eq!(s, want);
}

#[test]
fn spread_layout_places_trunks_and_merges() {
    let scan = build_forest(&sample_records());
    let layout = spread_layout(&scan.forest);
    assert_eq!(layout.tree_centers, vec![250, 750]);
    assert_eq!(layout.node_positions.get("m"), Some(&(25, 10)));
    assert_eq!(layout.node_positions.get("c3"), Some(&(25, 36)));
    assert_eq!(layout.node_positions.get("c2"), Some(&(25, 63)));
    assert_eq!(layout.node_positions.get("c1"), Some(&(25, 90)));
    assert_eq!(layout.node_positions.get("f1"), Some(&(75, 50)));
    assert_eq!(layout.node_positions.len(), 5);
    assert_eq!(layout.merge_positions.get("m"), Some(&(250, 100)));
    assert_eq!(layout.merge_positions.len(), 1);
    let empty = spread_layout(&Forest::new());
    assert!(empty.tree_centers.is_empty());
    assert!(empty.node_positions.is_empty());
}

#[test]
fn inspection_panel_without_selection() {
    let forest = Forest::new();
    let colors = StrMap::new();
    let s = format_inspection_panel(&forest, None, None, &colors);
    assert!(s.contains("No commit selected."));
    assert!(s.ends_with("Press 'i' to toggle this panel, 'q' to quit.\x1b[39m\r\n"));
}

fn single_tree_forest() -> Forest {
    let mut forest = Forest::new();
    forest.commit_map.insert("a".to_string(), node("a", "al", "m", 1, &[]));
    forest.trees.push(Tree {
        root: "a".to_string(),
        tip: "a".to_string(),
        branch: String::new(),
        commits: vec!["a".to_string()],
        author: "al".to_string(),
        commit_count: 1,
    });
    forest
}

#[test]
fn terminal_picture_of_one_tree() {
    let forest = single_tree_forest();
    let mut layout = empty_layout();
    layout.tree_centers.push(500);
    let out = render_forest_to_terminal(&forest, &layout, 5, 10);
    let c = |ch: char| format!("\x1b[38;2;224;81;81m{}\x1b[0m", ch);
    let mut rows: Vec<String> = Vec::new();
    rows.push(format!("  {}  ", c('.')));
    for _ in 1..=8 {
        rows.push(format!("  {}  ", c('|')));
    }
    rows.push(format!(" {} {} ", c('.'), c('.')));
    assert_eq!(out, rows.join("\n"));
}

#[test]
fn terminal_picture_merges_and_edges() {
    let mut forest = single_tree_forest();
    forest.merge_nodes.push(MergeNode {
        id: "m".to_string(),
        parent_ids: Vec::new(),
        child_ids: Vec::new(),
        commit: node("m", "al", "", 0, &[]),
        degree: 0,
    });
    let mut layout = empty_layout();
    layout.merge_positions.insert("m".to_string(), (1000, 0));
    let out = render_forest_to_terminal(&forest, &layout, 5, 10);
    assert!(out.starts_with("  \x1b[38;2;224;81;81m.\x1b[0m \x1b[38;2;255;215;0m*\x1b[0m\n"));
    assert_eq!(render_forest_to_terminal(&forest, &layout, 0, 3), "\n\n");
    assert_eq!(render_forest_to_terminal(&forest, &layout, 4, 0), "");
    assert_eq!(render_forest_to_terminal(&Forest::new(), &layout, 3, 2), "   \n   ");
}

#[test]
fn sort_by_time_is_stable() {
    let commits = vec![
        node("b", "x", "", 5, &[]),
        node("a", "x", "", 1, &[]),
        node("c", "x", "", 5, &[]),
        node("d", "x", "", -3, &[]),
    ];
    let sorted = sort_commits_by_time(&commits);
    let ids: Vec<&str> = sorted.iter().map(|c| c.id.as_str()).collect();
    assert_eq!(ids, vec!["d", "a", "b", "c"]);
    let again = sort_commits_by_time(&sorted);
    let ids2: Vec<&str> = again.iter().map(|c| c.id.as_str()).collect();
    assert_eq!(ids2, ids);
}

#[test]
fn svg_scene_marks() {
    let mut forest = single_tree_forest();
    forest.merge_nodes.push(MergeNode {
        id: "m".to_string(),
        parent_ids: vec!["a".to_string(), "b".to_string(), "c".to_string()],
        child_ids: Vec::new(),
        commit: node("m", "al", "", 0, &[]),
        degree: 3,
    });
    let mut layout = empty_layout();
    layout.node_positions.insert("m".to_string(), (10, 20));
    layout.node_positions.insert("a".to_string(), (30, 40));
    let colors = assign_author_colors(&forest);
    let scene = svg_scene(&forest, &layout, &colors);
    assert_eq!(scene.merges.len(), 1);
    assert_eq!((scene.merges[0].x, scene.merges[0].y, scene.merges[0].roots), (10, 20, 3));
    assert_eq!(scene.trunks.len(), 1);
    assert_eq!(scene.trunks[0].start, (30, 40));
    assert!(!scene.trunks[0].draw_trunk);
    assert_eq!(scene.trunks[0].color, (224, 81, 81));
    assert_eq!(scene.trunks[0].leaves, vec![(30, 40)]);
    let empty = svg_scene(&forest, &empty_layout(), &colors);
    assert_eq!(empty.merges.len(), 0);
    assert_eq!(empty.trunks.len(), 0);
}

#[test]
fn summary_counts_and_report() {
    let scan = build_forest(&sample_records());
    let stats = summary_stats(&scan.forest, 0);
    assert_eq!(stats.total_commits, 5);
    assert_eq!(stats.unique_authors, 2);
    assert_eq!(stats.tree_count, 2);
    assert_eq!(stats.branch_count, 1);
    assert_eq!(stats.merge_count, 1);
    assert_eq!(stats.longest_branch_length, 4);
    assert_eq!(stats.shortest_branch_length, 1);
    assert_eq!(stats.author_commit_counts.get("ann"), Some(&3));
    assert_eq!(stats.author_commit_counts.get("bob"), Some(&2));
    let text = render_summary(&stats, "2.50");
    assert!(text.starts_with("🌲 Git Forest Summary\n"));
    assert!(text.contains("Total commits: 5\n"));
    assert!(text.contains("Average commits per tree: 2.50\n"));
    assert!(text.contains("Longest branch: 4 commits\n"));
    let ann = format!("  ann: 3 {}\n", "█".repeat(18));
    let bob = format!("  bob: 2 {}\n", "█".repeat(12));
    assert!(text.ends_with(&format!("\nAuthor breakdown:\n{}{}", ann, bob)));
}

#[test]
fn shortest_branch_skips_empty_trees() {
    let mut forest = Forest::new();
    for (name, count) in [("e", 0u64), ("t", 3u64)] {
        forest.trees.push(Tree {
            root: name.to_string(),
            tip: name.to_string(),
            branch: String::new(),
            commits: Vec::new(),
            author: "al".to_string(),
            commit_count: count,
        });
    }
    let stats = summary_stats(&forest, 0);
    assert_eq!(stats.shortest_branch_length, 3);
    assert_eq!(stats.longest_branch_length, 3);
    let stats = summary_stats(&Forest::new(), 0);
    assert_eq!(stats.shortest_branch_length, 0);
}

#[test]
fn summary_bars_for_odd_counts() {
    let mut stats = summary_stats(&Forest::new(), 2);
    assert_eq!(stats.merge_storm_count, 2);
    assert_eq!(stats.shortest_branch_length, 0);
    stats.author_commit_counts.insert("idle".to_string(), 0);
    let text = render_summary(&stats, "0.00");
    assert!(text.ends_with("\nAuthor breakdown:\n  idle: 0 \n"));
    stats.total_commits = 2;
    stats.author_commit_counts.insert("busy".to_string(), 3);
    let text = render_summary(&stats, "0.00");
    // 3 of 2 commits: ceil(45) blocks.
    assert!(text.ends_with(&format!("  busy: 3 {}\n  idle: 0 \n", "█".repeat(45))));
    stats.author_commit_counts.insert("busy".to_string(), 1);
    stats.total_commits = 7;
    let text = render_summary(&stats, "0.00");
    // ceil(30 / 7) = 5.
    assert!(text.contains(&format!("  busy: 1 {}\n", "█".repeat(5))));
}

#[test]
fn strmap_read_after_write() {
    let mut m: StrMap<u32> = StrMap::new();
    m.insert("k".to_string(), 1);
    m.insert("j".to_string(), 2);
    m.insert("k".to_string(), 3);
    assert_eq!(m.get("k"), Some(&3));
    assert_eq!(m.get("j"), Some(&2));
    assert_eq!(m.len(), 2);
    assert_eq!(m.key_at(0), "k");
    assert!(m.contains_key("j"));
    assert!(!m.contains_key("x"));
}

#[test]
fn decimal_strings() {
    assert_eq!(decimal_string(0), "0");
    assert_eq!(decimal_string(7), "7");
    assert_eq!(decimal_string(1234567890), "1234567890");
    assert_eq!(decimal_string(u64::MAX), u64::MAX.to_string());
}
