use git_forest::color::{assign_author_colors, colorize, dim_color, highlight_color, hsl_to_rgb};
use git_forest::types::{CommitNode, Forest};

fn node(id: &str, author: &str, message: &str, time: i64) -> CommitNode {
    CommitNode {
        id: id.to_string(),
        author: author.to_string(),
        message: message.to_string(),
        time,
        parent_ids: Vec::new(),
        children_ids: Vec::new(),
        branch: None,
    }
}

#[test]
fn test_hsl_to_rgb_red() {
    let (r, g, b) = hsl_to_rgb(0, 1000, 500);
    assert_eq!(r, 255);
    assert_eq!(g, 0);
    assert_eq!(b, 0);
}

#[test]
fn test_hsl_to_rgb_green() {
    let (r, g, b) = hsl_to_rgb(120_000, 1000, 500);
    assert_eq!(r, 0);
    assert_eq!(g, 255);
    assert_eq!(b, 0);
}

#[test]
fn test_hsl_to_rgb_blue() {
    let (r, g, b) = hsl_to_rgb(240_000, 1000, 500);
    assert_eq!(r, 0);
    assert_eq!(g, 0);
    assert_eq!(b, 255);
}

#[test]
fn test_assign_author_colors_empty_forest() {
    let forest = Forest::new();
    let colors = assign_author_colors(&forest);
    assert!(colors.is_empty());
}

#[test]
fn test_assign_author_colors_unique() {
    let mut forest = Forest::new();
    forest.commit_map.insert("author1".to_string(), node("abc", "author1", "msg", 0));
    forest.commit_map.insert("author2".to_string(), node("def", "author2", "msg2", 1));
    let colors = assign_author_colors(&forest);
    assert_eq!(colors.len(), 2);
    // Ensure colors are different
    assert_ne!(colors.get("author1"), colors.get("author2"));
}

#[test]
fn test_colorize() {
    let result = colorize("hello", 255, 0, 0);
    assert!(result.contains("hello"));
    assert!(result.contains("\x1b[38;2;255;0;0m"));
}

#[test]
fn test_highlight_color() {
    let (r, g, b) = highlight_color(100, 100, 100);
    assert!(r > 100);
    assert!(g > 100);
    assert!(b > 100);
}

#[test]
fn test_dim_color() {
    let (r, g, b) = dim_color(200, 200, 200);
    assert!(r < 200);
    assert!(g < 200);
    assert!(b < 200);
}

#[test]
fn highlight_and_dim_exact_values() {
    assert_eq!(highlight_color(100, 0, 255), (130, 0, 255));
    assert_eq!(highlight_color(196, 197, 10), (254, 255, 13));
    assert_eq!(dim_color(200, 1, 0), (120, 0, 0));
    assert_eq!(dim_color(255, 10, 5), (153, 6, 3));
}

#[test]
fn hsl_to_rgb_mixed_values() {
    assert_eq!(hsl_to_rgb(0, 700, 600), (224, 81, 81));
    assert_eq!(hsl_to_rgb(60_000, 1000, 500), (255, 255, 0));
    assert_eq!(hsl_to_rgb(0, 0, 1000), (255, 255, 255));
    assert_eq!(hsl_to_rgb(300_000, 1000, 500), (255, 0, 255));
}

#[test]
fn golden_angle_colours_by_rank() {
    let mut forest = Forest::new();
    forest.commit_map.insert("c1".to_string(), node("c1", "zoe", "m", 0));
    forest.commit_map.insert("c2".to_string(), node("c2", "adam", "m", 0));
    forest.commit_map.insert("c3".to_string(), node("c3", "mia", "m", 0));
    forest.commit_map.insert("c4".to_string(), node("c4", "adam", "m", 0));
    forest.commit_map.insert("c5".to_string(), node("c5", "bob", "m", 0));
    let colors = assign_author_colors(&forest);
    assert_eq!(colors.len(), 4);
    assert_eq!(colors.key_at(0), "adam");
    assert_eq!(colors.key_at(3), "zoe");
    assert_eq!(colors.get("adam"), Some(&(224, 81, 81)));
    assert_eq!(colors.get("bob"), Some(&(81, 224, 123)));
    assert_eq!(colors.get("mia"), Some(&(164, 81, 224)));
    assert_eq!(colors.get("zoe"), Some(&(224, 206, 81)));
    assert_eq!(colors.get("nobody"), None);
}

#[test]
fn colorize_ends_with_reset() {
    let result = colorize("x", 1, 2, 3);
    assert!(result.ends_with("x\x1b[39m"));
    assert!(result == "\x1b[38;2;1;2;3mx\x1b[39m" || result == "x\x1b[39m");
}

#[test]
fn author_colours_stay_distinct_up_to_610_authors() {
    let mut forest = Forest::new();
    for i in 0..611 {
        let id = format!("c{:04}", i);
        forest.commit_map.insert(id.clone(), node(&id, &format!("a{:04}", i), "m", i));
    }
    let colors = assign_author_colors(&forest);
    assert_eq!(colors.len(), 611);
    let mut seen = std::collections::HashSet::new();
    for i in 0..610 {
        assert!(seen.insert(*colors.get(&format!("a{:04}", i)).unwrap()));
    }
    // The 611th author comes back to the first author's colour.
    assert_eq!(colors.get("a0610"), colors.get("a0000"));
    assert_eq!(colors.get("a0000"), Some(&(224, 81, 81)));
}
