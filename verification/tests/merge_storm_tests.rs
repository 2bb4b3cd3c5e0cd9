use git_forest::merge_storm::{detect_merge_storms, merge_overlapping_storms, storm_label, MergeStorm};
use git_forest::types::{CommitNode, Forest, MergeNode};

fn commit(id: &str, time: i64, parents: &[&str]) -> CommitNode {
    CommitNode {
        id: id.to_string(),
        author: "test".to_string(),
        message: format!("Merge {}", id),
        time,
        parent_ids: parents.iter().map(|p| p.to_string()).collect(),
        children_ids: Vec::new(),
        branch: None,
    }
}

fn add_merge(forest: &mut Forest, id: &str, time: i64, parents: &[&str], known: bool) {
    if known {
        forest.commit_map.insert(id.to_string(), commit(id, time, parents));
    }
    forest.merge_nodes.push(MergeNode {
        id: id.to_string(),
        parent_ids: parents.iter().map(|p| p.to_string()).collect(),
        child_ids: Vec::new(),
        commit: commit(id, time, parents),
        degree: parents.len(),
    });
}

fn forest_with_merges(times: &[i64]) -> Forest {
    let mut forest = Forest::new();
    for (i, t) in times.iter().enumerate() {
        add_merge(&mut forest, &format!("merge{}", i), *t, &["parent1", "parent2"], true);
    }
    forest
}

fn ids(storm: &MergeStorm) -> Vec<&str> {
    storm.merges.iter().map(|s| s.as_str()).collect()
}

#[test]
fn test_no_merges() {
    let forest = Forest::new();
    let storms = detect_merge_storms(&forest);
    assert!(storms.is_empty());
}

#[test]
fn test_single_merge_no_storm() {
    let forest = forest_with_merges(&[1000]);
    let storms = detect_merge_storms(&forest);
    assert!(storms.is_empty());
}

#[test]
fn three_merges_within_an_hour_make_a_storm() {
    let forest = forest_with_merges(&[1000, 1500, 4600, 9000]);
    let storms = detect_merge_storms(&forest);
    assert_eq!(storms.len(), 1);
    assert_eq!(storms[0].time_range, (1000, 4600));
    assert_eq!(ids(&storms[0]), vec!["merge0", "merge1", "merge2"]);
    assert_eq!(storms[0].branch_count, 2);
    // 3 merges and 2 parents: 0.3 * 0.2 = 0.06.
    assert_eq!(storms[0].intensity, 6);
}

#[test]
fn two_merges_are_no_storm() {
    let forest = forest_with_merges(&[0, 3600, 3601]);
    let storms = detect_merge_storms(&forest);
    // The window from 0 holds two merges; the one from 3600 holds only two as well.
    assert!(storms.is_empty());
}

#[test]
fn scan_resumes_after_a_storm() {
    let forest = forest_with_merges(&[0, 100, 200, 300, 5000, 5100, 5200, 20000]);
    let storms = detect_merge_storms(&forest);
    assert_eq!(storms.len(), 2);
    assert_eq!(storms[0].time_range, (0, 3600));
    assert_eq!(storms[0].merges.len(), 4);
    assert_eq!(storms[1].time_range, (5000, 8600));
    assert_eq!(ids(&storms[1]), vec!["merge4", "merge5", "merge6"]);
    assert!(storms[0].time_range.1 < storms[1].time_range.0);
}

#[test]
fn merges_are_taken_oldest_first() {
    let forest = forest_with_merges(&[300, 100, 200, 100]);
    let storms = detect_merge_storms(&forest);
    assert_eq!(storms.len(), 1);
    assert_eq!(storms[0].time_range, (100, 3700));
    // Same time: merge-node order is kept.
    assert_eq!(ids(&storms[0]), vec!["merge1", "merge3", "merge2", "merge0"]);
}

#[test]
fn branch_count_and_intensity_grow_with_parents() {
    let mut forest = Forest::new();
    let parents = ["p0", "p1", "p2", "p3", "p4", "p5", "p6", "p7", "p8", "p9", "p10", "p11"];
    for i in 0..12 {
        let ps = [parents[i], parents[(i + 1) % 12]];
        add_merge(&mut forest, &format!("m{}", i), 10 * i as i64, &ps, true);
    }
    let storms = detect_merge_storms(&forest);
    assert_eq!(storms.len(), 1);
    assert_eq!(storms[0].merges.len(), 12);
    assert_eq!(storms[0].branch_count, 12);
    assert_eq!(storms[0].intensity, 100);
}

#[test]
fn merges_without_known_commit_are_skipped() {
    let mut forest = Forest::new();
    add_merge(&mut forest, "a", 0, &["x", "y"], true);
    add_merge(&mut forest, "ghost", 10, &["x", "z"], false);
    add_merge(&mut forest, "b", 20, &["x", "y"], true);
    let storms = detect_merge_storms(&forest);
    assert!(storms.is_empty());
    add_merge(&mut forest, "c", 30, &["w", "y"], true);
    let storms = detect_merge_storms(&forest);
    assert_eq!(storms.len(), 1);
    assert_eq!(ids(&storms[0]), vec!["a", "b", "c"]);
    assert_eq!(storms[0].branch_count, 3);
    assert_eq!(storms[0].intensity, 9);
}

fn storm(start: i64, end: i64, merges: &[&str], branch_count: usize, intensity: u32) -> MergeStorm {
    MergeStorm {
        time_range: (start, end),
        merges: merges.iter().map(|m| m.to_string()).collect(),
        branch_count,
        intensity,
    }
}

#[test]
fn overlapping_storms_are_folded_together() {
    let mut storms = vec![
        storm(4000, 7600, &["d"], 2, 10),
        storm(0, 3600, &["a", "b"], 3, 20),
        storm(1000, 4600, &["b", "c"], 5, 15),
    ];
    merge_overlapping_storms(&mut storms);
    assert_eq!(storms.len(), 1);
    assert_eq!(storms[0].time_range, (0, 7600));
    assert_eq!(ids(&storms[0]), vec!["a", "b", "c", "d"]);
    assert_eq!(storms[0].branch_count, 5);
    assert_eq!(storms[0].intensity, 20);
}

#[test]
fn separate_storms_stay_apart() {
    let mut storms = vec![storm(0, 3600, &["a"], 1, 1), storm(3601, 7201, &["b"], 2, 2)];
    merge_overlapping_storms(&mut storms);
    assert_eq!(storms.len(), 2);
    assert_eq!(storms[0].time_range, (0, 3600));
    assert_eq!(storms[1].time_range, (3601, 7201));
    let mut none: Vec<MergeStorm> = Vec::new();
    merge_overlapping_storms(&mut none);
    assert!(none.is_empty());
}

#[test]
fn storm_labels_follow_intensity() {
    assert_eq!(storm_label(100), "severe merge storm");
    assert_eq!(storm_label(80), "severe merge storm");
    assert_eq!(storm_label(79), "moderate merge storm");
    assert_eq!(storm_label(50), "moderate merge storm");
    assert_eq!(storm_label(30), "minor merge storm");
    assert_eq!(storm_label(29), "gentle merge breeze");
    assert_eq!(storm_label(0), "gentle merge breeze");
}
