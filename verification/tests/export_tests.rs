use git_forest::export::export_scene;
use git_forest::merge_storm::MergeStorm;
use git_forest::render::LayoutResult;
use git_forest::scan::{build_forest, CommitRecord};
use git_forest::strmap::StrMap;
use git_forest::types::CommitNode;

fn rec(id: &str, author: &str, time: i64, parents: &[&str]) -> CommitRecord {
    CommitRecord {
        id: id.to_string(),
        author: author.to_string(),
        message: format!("commit {}", id),
        time,
        parent_ids: parents.iter().map(|p| p.to_string()).collect(),
    }
}

fn records() -> Vec<CommitRecord> {
    vec![
        rec("m", "ann", 50, &["c3", "f1"]),
        rec("f1", "bob", 40, &["c1"]),
        rec("c3", "ann", 30, &["c2"]),
        rec("c2", "ann", 20, &["c1"]),
        rec("c1", "bob", 10, &[]),
    ]
}

fn layout() -> LayoutResult {
    let mut pos = StrMap::new();
    pos.insert("c1".to_string(), (10, 90));
    pos.insert("c3".to_string(), (30, 70));
    pos.insert("m".to_string(), (50, 50));
    pos.insert("f1".to_string(), (60, 60));
    pos.insert("lone".to_string(), (5, 5));
    LayoutResult { tree_centers: Vec::new(), merge_positions: StrMap::new(), node_positions: pos }
}

fn lone(id: &str, author: &str) -> CommitNode {
    CommitNode {
        id: id.to_string(),
        author: author.to_string(),
        message: "lone".to_string(),
        time: 1,
        parent_ids: Vec::new(),
        children_ids: Vec::new(),
        branch: None,
    }
}

#[test]
fn export_scene_draws_storms_trees_and_lone_commits() {
    let mut forest = build_forest(&records()).forest;
    forest.commit_map.insert("lone".to_string(), lone("lone", "zed"));
    forest.commit_map.insert("hidden".to_string(), lone("hidden", "zed"));
    let mut colors = StrMap::new();
    colors.insert("ann".to_string(), (1, 2, 3));
    let storms = vec![MergeStorm {
        time_range: (0, 3600),
        merges: vec!["m".to_string(), "nowhere".to_string()],
        branch_count: 2,
        intensity: 6,
    }];
    let scene = export_scene(&forest, &layout(), &colors, &storms);

    assert_eq!(scene.storm_lines, vec![((50, 50), (30, 70)), ((50, 50), (60, 60))]);

    assert_eq!(scene.trees.len(), 2);
    let main = &scene.trees[0];
    assert_eq!(main.color, (1, 2, 3));
    assert_eq!(main.leaf_size, 10);
    // Time order is c1, c2, c3, m; c2 is not placed, so only c3 to m is drawn.
    assert_eq!(main.segments, vec![((30, 70), (50, 50))]);
    assert_eq!(
        main.leaves,
        vec![((50, 50), (1, 2, 3)), ((30, 70), (1, 2, 3)), ((10, 90), (200, 200, 200))]
    );
    let side = &scene.trees[1];
    assert_eq!(side.color, (100, 200, 100));
    assert!(side.segments.is_empty());
    assert_eq!(side.leaves, vec![((60, 60), (200, 200, 200))]);

    assert_eq!(scene.isolated, vec![((5, 5), (200, 200, 200))]);
}

#[test]
fn export_scene_leaf_size_shrinks_for_busy_trees() {
    let mut recs = Vec::new();
    for i in 0..60 {
        let id = format!("c{}", i);
        let parent = format!("c{}", i + 1);
        if i < 59 {
            recs.push(rec(&id, "ann", 100 - i as i64, &[parent.as_str()]));
        } else {
            recs.push(rec(&id, "ann", 100 - i as i64, &[]));
        }
    }
    let forest = build_forest(&recs).forest;
    let empty = LayoutResult { tree_centers: Vec::new(), merge_positions: StrMap::new(), node_positions: StrMap::new() };
    let scene = export_scene(&forest, &empty, &StrMap::new(), &Vec::new());
    assert_eq!(scene.trees.len(), 1);
    assert_eq!(scene.trees[0].leaf_size, 8);
    assert!(scene.trees[0].leaves.is_empty());
    assert!(scene.trees[0].segments.is_empty());
    assert!(scene.isolated.is_empty());
    assert!(scene.storm_lines.is_empty());
}
