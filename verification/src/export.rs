//! What the shared SVG export of a forest shows: merge storms as tangled root
//! lines from each storm merge to its parents, each tree as a trunk through its
//! commits in time order with a leaf per commit, and commits outside every tree
//! as lone leaves. Positions are hundredths of the picture; scaling them to
//! pixels and writing the markup is done where the file is written.

use vstd::prelude::*;
use crate::inspect::{author_color, author_color_or};
use crate::merge_storm::MergeStorm;
use crate::order::{is_key_order, reorder};
use crate::render::LayoutResult;
use crate::strmap::{StrMap, lookup};
use crate::svg::{is_time_order, sort_commits_by_time, times_of};
use crate::text::str_eq;
use crate::types::{CommitNode, Forest, Tree, same_commit, strings_view};

verus! {

/// A point on the picture, in hundredths of its width and height.
pub type Point = (u32, u32);

/// Trunk colour of a tree whose first commit's author has no colour.
pub open spec fn default_trunk_color() -> (u8, u8, u8) {
    (100, 200, 100)
}

/// Leaf colour of a commit whose author has no colour.
pub open spec fn default_leaf_color() -> (u8, u8, u8) {
    (200, 200, 200)
}

/// The lines from a merge at `from` to each of its parents that is a known
/// commit and placed, among `parents`.
pub open spec fn parent_lines(forest: &Forest, pos: Seq<(Seq<char>, Point)>, from: Point, parents: Seq<Seq<char>>) -> Seq<(Point, Point)>
    decreases parents.len(),
{
    if parents.len() == 0 {
        Seq::empty()
    } else {
        parent_lines(forest, pos, from, parents.drop_last()) + match (lookup(forest.commit_map@, parents.last()), lookup(pos, parents.last())) {
            (Some(_), Some(to)) => seq![(from, to)],
            _ => Seq::empty(),
        }
    }
}

/// The root lines of the storm merges `ids`: for each merge that is a known,
/// placed commit, a line to each known, placed parent.
pub open spec fn storm_merge_lines(forest: &Forest, pos: Seq<(Seq<char>, Point)>, ids: Seq<Seq<char>>) -> Seq<(Point, Point)>
    decreases ids.len(),
{
    if ids.len() == 0 {
        Seq::empty()
    } else {
        storm_merge_lines(forest, pos, ids.drop_last()) + match (lookup(forest.commit_map@, ids.last()), lookup(pos, ids.last())) {
            (Some(c), Some(from)) => parent_lines(forest, pos, from, strings_view(c.parent_ids@)),
            _ => Seq::empty(),
        }
    }
}

/// The root lines of the first `n` storms.
pub open spec fn storm_lines(forest: &Forest, pos: Seq<(Seq<char>, Point)>, storms: Seq<MergeStorm>, n: nat) -> Seq<(Point, Point)>
    decreases n,
{
    if n == 0 {
        Seq::empty()
    } else {
        storm_lines(forest, pos, storms, (n - 1) as nat) + storm_merge_lines(forest, pos, strings_view(storms[n - 1].merges@))
    }
}

/// Appends the lines from `from` to the known, placed commits among `parents`.
fn push_parent_lines(forest: &Forest, pos: &StrMap<Point>, from: Point, parents: &Vec<String>, lines: &mut Vec<(Point, Point)>)
    ensures
        final(lines)@ == old(lines)@ + parent_lines(forest, pos@, from, strings_view(parents@)),
{
    let ghost start = lines@;
    assert(strings_view(parents@).subrange(0, 0) =~= Seq::<Seq<char>>::empty());
    assert(start =~= start + parent_lines(forest, pos@, from, strings_view(parents@).subrange(0, 0)));
    let mut k: usize = 0;
    while k < parents.len()
        invariant
            k <= parents@.len(),
            lines@ == start + parent_lines(forest, pos@, from, strings_view(parents@).subrange(0, k as int)),
        decreases parents.len() - k,
    {
        let ghost sub = strings_view(parents@).subrange(0, k + 1);
        assert(sub.drop_last() =~= strings_view(parents@).subrange(0, k as int));
        assert(sub.last() == parents@[k as int]@);
        match (forest.commit_map.get(parents[k].as_str()), pos.get(parents[k].as_str())) {
            (Some(_), Some(to)) => {
                lines.push((from, *to));
            },
            _ => {},
        }
        k = k + 1;
        assert(lines@ =~= start + parent_lines(forest, pos@, from, strings_view(parents@).subrange(0, k as int)));
    }
    assert(strings_view(parents@).subrange(0, k as int) =~= strings_view(parents@));
}

/// The root lines of all storms, storm by storm.
fn storm_root_lines(forest: &Forest, pos: &StrMap<Point>, storms: &Vec<MergeStorm>) -> (lines: Vec<(Point, Point)>)
    ensures
        lines@ == storm_lines(forest, pos@, storms@, storms@.len()),
{
    let mut lines: Vec<(Point, Point)> = Vec::new();
    let mut s: usize = 0;
    while s < storms.len()
        invariant
            s <= storms@.len(),
            lines@ == storm_lines(forest, pos@, storms@, s as nat),
        decreases storms.len() - s,
    {
        let ids = &storms[s].merges;
        let ghost base = lines@;
        assert(strings_view(ids@).subrange(0, 0) =~= Seq::<Seq<char>>::empty());
        assert(base =~= base + storm_merge_lines(forest, pos@, strings_view(ids@).subrange(0, 0)));
        let mut k: usize = 0;
        while k < ids.len()
            invariant
                k <= ids@.len(),
                lines@ == base + storm_merge_lines(forest, pos@, strings_view(ids@).subrange(0, k as int)),
            decreases ids.len() - k,
        {
            let ghost sub = strings_view(ids@).subrange(0, k + 1);
            assert(sub.drop_last() =~= strings_view(ids@).subrange(0, k as int));
            assert(sub.last() == ids@[k as int]@);
            let ghost mid = lines@;
            match (forest.commit_map.get(ids[k].as_str()), pos.get(ids[k].as_str())) {
                (Some(c), Some(from)) => {
                    push_parent_lines(forest, pos, *from, &c.parent_ids, &mut lines);
                    assert(lines@ =~= base + storm_merge_lines(forest, pos@, sub));
                },
                _ => {
                    assert(lines@ =~= base + storm_merge_lines(forest, pos@, sub));
                },
            }
            k = k + 1;
        }
        assert(strings_view(ids@).subrange(0, k as int) =~= strings_view(ids@));
        s = s + 1;
        assert(lines@ =~= storm_lines(forest, pos@, storms@, s as nat));
    }
    lines
}

/// The id, author and time of a commit.
pub open spec fn commit_facts(c: CommitNode) -> (Seq<char>, Seq<char>, i64) {
    (c.id@, c.author@, c.time)
}

/// The facts of the known commits among `ids`, in order.
pub open spec fn known_commits(forest: &Forest, ids: Seq<Seq<char>>) -> Seq<(Seq<char>, Seq<char>, i64)>
    decreases ids.len(),
{
    if ids.len() == 0 {
        Seq::empty()
    } else {
        known_commits(forest, ids.drop_last()) + match lookup(forest.commit_map@, ids.last()) {
            Some(c) => seq![commit_facts(c)],
            None => Seq::empty(),
        }
    }
}

/// The author of the first of `commits`, or `unknown` when there is none.
pub open spec fn primary_author(commits: Seq<(Seq<char>, Seq<char>, i64)>) -> Seq<char> {
    if commits.len() > 0 { commits[0].1 } else { "unknown"@ }
}

/// Leaf radius for a tree of `n` commits: smaller leaves for busier trees.
pub open spec fn leaf_size_for(n: int) -> u32 {
    if n > 100 { 6 } else if n > 50 { 8 } else { 10 }
}

/// The times of commit facts.
pub open spec fn fact_times(commits: Seq<(Seq<char>, Seq<char>, i64)>) -> Seq<i64> {
    commits.map_values(|f: (Seq<char>, Seq<char>, i64)| f.2)
}

/// The ids of commit facts.
pub open spec fn fact_ids(commits: Seq<(Seq<char>, Seq<char>, i64)>) -> Seq<Seq<char>> {
    commits.map_values(|f: (Seq<char>, Seq<char>, i64)| f.0)
}

/// The trunk segments through the commits `ids` in order: one between each two
/// neighbours that are both placed.
pub open spec fn trunk_segments(pos: Seq<(Seq<char>, Point)>, ids: Seq<Seq<char>>) -> Seq<(Point, Point)>
    decreases ids.len(),
{
    if ids.len() < 2 {
        Seq::empty()
    } else {
        trunk_segments(pos, ids.drop_last()) + match (lookup(pos, ids[ids.len() - 2]), lookup(pos, ids.last())) {
            (Some(a), Some(b)) => seq![(a, b)],
            _ => Seq::empty(),
        }
    }
}

/// A leaf for each placed commit among `commits`, in its author's colour.
pub open spec fn commit_leaves(pos: Seq<(Seq<char>, Point)>, colors: Seq<(Seq<char>, (u8, u8, u8))>, commits: Seq<(Seq<char>, Seq<char>, i64)>) -> Seq<(Point, (u8, u8, u8))>
    decreases commits.len(),
{
    if commits.len() == 0 {
        Seq::empty()
    } else {
        commit_leaves(pos, colors, commits.drop_last()) + match lookup(pos, commits.last().0) {
            Some(p) => seq![(p, author_color_or(colors, commits.last().1, default_leaf_color()))],
            None => Seq::empty(),
        }
    }
}

/// How one tree is drawn.
pub struct TreeDrawing {
    /// Trunk colour: that of the author of the tree's first commit.
    pub color: (u8, u8, u8),
    /// Trunk segments between commits neighbouring in time.
    pub segments: Vec<(Point, Point)>,
    /// Leaf radius.
    pub leaf_size: u32,
    /// A leaf per placed commit, in its author's colour.
    pub leaves: Vec<(Point, (u8, u8, u8))>,
}

/// Whether `d` draws `tree`: its trunk coloured by the author of its first
/// known commit, segments through its known commits sorted by time (stably),
/// leaves sized by the number of those commits, one leaf per placed commit.
pub open spec fn is_tree_drawing(forest: &Forest, pos: Seq<(Seq<char>, Point)>, colors: Seq<(Seq<char>, (u8, u8, u8))>, tree: Tree, d: TreeDrawing) -> bool {
    let kc = known_commits(forest, strings_view(tree.commits@));
    &&& d.color == author_color_or(colors, primary_author(kc), default_trunk_color())
    &&& d.leaf_size == leaf_size_for(kc.len() as int)
    &&& d.leaves@ == commit_leaves(pos, colors, kc)
    &&& exists|perm: Seq<int>| #[trigger] is_key_order(fact_times(kc), perm) && d.segments@ == trunk_segments(pos, fact_ids(reorder(kc, perm)))
}

/// Leaves shrink as trees get busier: a drawn tree with more than 100 known
/// commits has leaves of radius 6, one with 51 to 100 radius 8, a smaller one
/// radius 10.
pub proof fn lemma_leaf_size_by_commits(forest: &Forest, pos: Seq<(Seq<char>, Point)>, colors: Seq<(Seq<char>, (u8, u8, u8))>, tree: Tree, d: TreeDrawing)
    requires
        is_tree_drawing(forest, pos, colors, tree, d),
    ensures
        known_commits(forest, strings_view(tree.commits@)).len() > 100 ==> d.leaf_size == 6,
        50 < known_commits(forest, strings_view(tree.commits@)).len() <= 100 ==> d.leaf_size == 8,
        known_commits(forest, strings_view(tree.commits@)).len() <= 50 ==> d.leaf_size == 10,
{
}

/// The known commits among `ids`, copied, in order.
fn known_commit_nodes(forest: &Forest, ids: &Vec<String>) -> (r: Vec<CommitNode>)
    ensures
        r@.map_values(|c: CommitNode| commit_facts(c)) == known_commits(forest, strings_view(ids@)),
{
    let mut r: Vec<CommitNode> = Vec::new();
    let mut k: usize = 0;
    while k < ids.len()
        invariant
            k <= ids@.len(),
            r@.map_values(|c: CommitNode| commit_facts(c)) == known_commits(forest, strings_view(ids@).subrange(0, k as int)),
        decreases ids.len() - k,
    {
        let ghost sub = strings_view(ids@).subrange(0, k + 1);
        assert(sub.drop_last() =~= strings_view(ids@).subrange(0, k as int));
        assert(sub.last() == ids@[k as int]@);
        let ghost before = r@;
        match forest.commit_map.get(ids[k].as_str()) {
            Some(c) => {
                let d = c.duplicate();
                r.push(d);
                assert(r@.map_values(|c: CommitNode| commit_facts(c)) =~= before.map_values(|c: CommitNode| commit_facts(c)).push(commit_facts(*c)));
            },
            None => {},
        }
        k = k + 1;
        assert(r@.map_values(|c: CommitNode| commit_facts(c)) =~= known_commits(forest, strings_view(ids@).subrange(0, k as int)));
    }
    assert(strings_view(ids@).subrange(0, k as int) =~= strings_view(ids@));
    r
}

/// The drawing of one tree.
fn tree_drawing(forest: &Forest, pos: &StrMap<Point>, colors: &StrMap<(u8, u8, u8)>, tree: &Tree) -> (d: TreeDrawing)
    ensures
        is_tree_drawing(forest, pos@, colors@, *tree, d),
{
    let known = known_commit_nodes(forest, &tree.commits);
    let ghost kc = known_commits(forest, strings_view(tree.commits@));
    assert(known@.len() == kc.len());
    let color = if known.len() > 0 {
        assert(kc[0] == commit_facts(known@[0]));
        author_color(colors, known[0].author.as_str(), (100, 200, 100))
    } else {
        author_color(colors, "unknown", (100, 200, 100))
    };
    let n = known.len();
    let leaf_size: u32 = if n > 100 { 6 } else if n > 50 { 8 } else { 10 };
    let mut leaves: Vec<(Point, (u8, u8, u8))> = Vec::new();
    let mut k: usize = 0;
    while k < n
        invariant
            n == known@.len(),
            known@.map_values(|c: CommitNode| commit_facts(c)) == kc,
            k <= n,
            leaves@ == commit_leaves(pos@, colors@, kc.subrange(0, k as int)),
        decreases n - k,
    {
        let ghost sub = kc.subrange(0, k + 1);
        assert(sub.drop_last() =~= kc.subrange(0, k as int));
        assert(sub.last() == commit_facts(known@[k as int]));
        match pos.get(known[k].id.as_str()) {
            Some(p) => {
                let c = author_color(colors, known[k].author.as_str(), (200, 200, 200));
                leaves.push((*p, c));
            },
            None => {},
        }
        k = k + 1;
        assert(leaves@ =~= commit_leaves(pos@, colors@, kc.subrange(0, k as int)));
    }
    assert(kc.subrange(0, n as int) =~= kc);
    let sorted = sort_commits_by_time(known.as_slice());
    let ghost perm = choose|perm: Seq<int>| {
        &&& #[trigger] is_time_order(known@, perm)
        &&& sorted@.len() == known@.len()
        &&& forall|j: int| 0 <= j < sorted@.len() ==> same_commit(#[trigger] sorted@[j], known@[perm[j]])
    };
    let ghost ids = sorted@.map_values(|c: CommitNode| c.id@);
    proof {
        assert(times_of(known@) =~= fact_times(kc));
        assert(ids =~= fact_ids(reorder(kc, perm))) by {
            assert forall|j: int| 0 <= j < ids.len() implies ids[j] == fact_ids(reorder(kc, perm))[j] by {
                assert(same_commit(sorted@[j], known@[perm[j]]));
                assert(0 <= perm[j] < known@.len());
                assert(kc[perm[j]] == commit_facts(known@[perm[j]]));
            }
        }
    }
    let mut segments: Vec<(Point, Point)> = Vec::new();
    if n >= 2 {
        let mut i: usize = 1;
        assert(trunk_segments(pos@, ids.subrange(0, 1)) =~= Seq::<(Point, Point)>::empty());
        while i < n
            invariant
                n == sorted@.len(),
                ids == sorted@.map_values(|c: CommitNode| c.id@),
                1 <= i <= n,
                segments@ == trunk_segments(pos@, ids.subrange(0, i as int)),
            decreases n - i,
        {
            let ghost sub = ids.subrange(0, i + 1);
            assert(sub.drop_last() =~= ids.subrange(0, i as int));
            assert(sub[sub.len() - 2] == sorted@[i - 1].id@);
            assert(sub.last() == sorted@[i as int].id@);
            match (pos.get(sorted[i - 1].id.as_str()), pos.get(sorted[i].id.as_str())) {
                (Some(a), Some(b)) => {
                    segments.push((*a, *b));
                },
                _ => {},
            }
            i = i + 1;
            assert(segments@ =~= trunk_segments(pos@, ids.subrange(0, i as int)));
        }
        assert(ids.subrange(0, n as int) =~= ids);
    } else {
        assert(trunk_segments(pos@, ids) =~= Seq::<(Point, Point)>::empty());
    }
    let d = TreeDrawing { color, segments, leaf_size, leaves };
    assert(is_key_order(fact_times(kc), perm) && d.segments@ == trunk_segments(pos@, fact_ids(reorder(kc, perm))));
    d
}

/// Whether some tree of the forest lists the commit `id`.
pub open spec fn in_some_tree(forest: &Forest, id: Seq<char>) -> bool {
    exists|t: int, k: int| 0 <= t < forest.trees@.len() && 0 <= k < forest.trees@[t].commits@.len() && #[trigger] forest.trees@[t].commits@[k]@ == id
}

/// A lone leaf for each of the first `n` commits of the map that no tree lists
/// and the layout places, in its author's colour.
pub open spec fn isolated_leaves(forest: &Forest, pos: Seq<(Seq<char>, Point)>, colors: Seq<(Seq<char>, (u8, u8, u8))>, n: nat) -> Seq<(Point, (u8, u8, u8))>
    decreases n,
{
    if n == 0 {
        Seq::empty()
    } else {
        let e = forest.commit_map@[n - 1];
        isolated_leaves(forest, pos, colors, (n - 1) as nat) + if in_some_tree(forest, e.0) {
            Seq::empty()
        } else {
            match lookup(pos, e.0) {
                Some(p) => seq![(p, author_color_or(colors, e.1.author@, default_leaf_color()))],
                None => Seq::empty(),
            }
        }
    }
}

/// Whether some tree of the forest lists the commit `id`.
fn in_any_tree(forest: &Forest, id: &str) -> (r: bool)
    ensures
        r == in_some_tree(forest, id@),
{
    let mut t: usize = 0;
    while t < forest.trees.len()
        invariant
            t <= forest.trees@.len(),
            forall|a: int, k: int| 0 <= a < t && 0 <= k < forest.trees@[a].commits@.len() ==> #[trigger] forest.trees@[a].commits@[k]@ != id@,
        decreases forest.trees.len() - t,
    {
        let commits = &forest.trees[t].commits;
        let mut k: usize = 0;
        while k < commits.len()
            invariant
                t < forest.trees@.len(),
                commits == &forest.trees@[t as int].commits,
                k <= commits@.len(),
                forall|j: int| 0 <= j < k ==> #[trigger] commits@[j]@ != id@,
            decreases commits.len() - k,
        {
            if str_eq(commits[k].as_str(), id) {
                assert(forest.trees@[t as int].commits@[k as int]@ == id@);
                return true;
            }
            k = k + 1;
        }
        t = t + 1;
    }
    false
}

/// Everything the shared SVG export shows, in drawing order.
pub struct ExportScene {
    /// Root lines of the merge storms.
    pub storm_lines: Vec<(Point, Point)>,
    /// One drawing per tree, in forest order.
    pub trees: Vec<TreeDrawing>,
    /// Leaves of the commits that no tree lists.
    pub isolated: Vec<(Point, (u8, u8, u8))>,
}

/// The scene of the shared SVG export: storm root lines, then each tree's trunk
/// and leaves, then the commits outside every tree as lone leaves.
pub fn export_scene(forest: &Forest, layout: &LayoutResult, author_colors: &StrMap<(u8, u8, u8)>, storms: &Vec<MergeStorm>) -> (scene: ExportScene)
    ensures
        scene.storm_lines@ == storm_lines(forest, layout.node_positions@, storms@, storms@.len()),
        scene.trees@.len() == forest.trees@.len(),
        forall|t: int| 0 <= t < forest.trees@.len() ==> is_tree_drawing(forest, layout.node_positions@, author_colors@, #[trigger] forest.trees@[t], scene.trees@[t]),
        scene.isolated@ == isolated_leaves(forest, layout.node_positions@, author_colors@, forest.commit_map@.len()),
        forall|t: int| 0 <= t < forest.trees@.len() ==> (#[trigger] scene.trees@[t]).leaf_size == ({
            let n = known_commits(forest, strings_view(forest.trees@[t].commits@)).len();
            if n > 100 { 6u32 } else if n > 50 { 8u32 } else { 10u32 }
        }),
{
    let pos = &layout.node_positions;
    let storm_lines = storm_root_lines(forest, pos, storms);
    let mut trees: Vec<TreeDrawing> = Vec::new();
    let mut t: usize = 0;
    while t < forest.trees.len()
        invariant
            pos == &layout.node_positions,
            t <= forest.trees@.len(),
            trees@.len() == t,
            forall|j: int| 0 <= j < t ==> is_tree_drawing(forest, pos@, author_colors@, #[trigger] forest.trees@[j], trees@[j]),
        decreases forest.trees.len() - t,
    {
        let d = tree_drawing(forest, pos, author_colors, &forest.trees[t]);
        trees.push(d);
        t = t + 1;
    }
    let mut isolated: Vec<(Point, (u8, u8, u8))> = Vec::new();
    let n = forest.commit_map.len();
    let mut k: usize = 0;
    while k < n
        invariant
            pos == &layout.node_positions,
            n == forest.commit_map@.len(),
            k <= n,
            isolated@ == isolated_leaves(forest, pos@, author_colors@, k as nat),
        decreases n - k,
    {
        let id = forest.commit_map.key_at(k);
        let c = forest.commit_map.value_at(k);
        if !in_any_tree(forest, id.as_str()) {
            match pos.get(id.as_str()) {
                Some(p) => {
                    let color = author_color(author_colors, c.author.as_str(), (200, 200, 200));
                    isolated.push((*p, color));
                },
                None => {},
            }
        }
        k = k + 1;
        assert(isolated@ =~= isolated_leaves(forest, pos@, author_colors@, k as nat));
    }
    proof {
        assert forall|t: int| 0 <= t < forest.trees@.len() implies (#[trigger] trees@[t]).leaf_size == ({
            let n = known_commits(forest, strings_view(forest.trees@[t].commits@)).len();
            if n > 100 { 6u32 } else if n > 50 { 8u32 } else { 10u32 }
        }) by {
            lemma_leaf_size_by_commits(forest, pos@, author_colors@, forest.trees@[t], trees@[t]);
        }
    }
    ExportScene { storm_lines, trees, isolated }
}

} // verus!
