//! What the SVG picture of a forest shows: the tangled roots of each placed
//! merge node, the tapered trunk of each placed tree with its leaves, and
//! commits sorted by time for drawing trunks. Turning positions into pixel
//! coordinates and shapes is done where the picture is written.

use vstd::prelude::*;
use crate::inspect::{author_color, author_color_or};
use crate::order::{is_key_order, key_before, keys_sorted, lemma_sorted_keys_keep_order, stable_key_order};
use crate::render::LayoutResult;
use crate::strmap::{StrMap, lookup};
use crate::types::{CommitNode, Forest, Tree, same_commit, strings_view};

verus! {

/// The commit times, in input order.
pub open spec fn times_of(nodes: Seq<CommitNode>) -> Seq<i64> {
    nodes.map_values(|c: CommitNode| c.time)
}

/// `perm` lists every input position once, in time order (a stable sort by time).
pub open spec fn is_time_order(nodes: Seq<CommitNode>, perm: Seq<int>) -> bool {
    is_key_order(times_of(nodes), perm)
}

/// Sorts commits by time, oldest first, keeping the input order among commits
/// with the same time.
pub fn sort_commits_by_time(commits: &[CommitNode]) -> (sorted: Vec<CommitNode>)
    ensures
        exists|perm: Seq<int>| {
            &&& #[trigger] is_time_order(commits@, perm)
            &&& sorted@.len() == commits@.len()
            &&& forall|k: int| 0 <= k < sorted@.len() ==> same_commit(#[trigger] sorted@[k], commits@[perm[k]])
        },
{
    let n = commits.len();
    let mut times: Vec<i64> = Vec::new();
    let mut i: usize = 0;
    while i < n
        invariant
            n == commits@.len(),
            i <= n,
            times@ == times_of(commits@).subrange(0, i as int),
        decreases n - i,
    {
        times.push(commits[i].time);
        i = i + 1;
        assert(times@ =~= times_of(commits@).subrange(0, i as int));
    }
    assert(times@ =~= times_of(commits@));
    let idx = stable_key_order(&times);
    let ghost perm = idx@.map_values(|x: usize| x as int);
    let mut sorted: Vec<CommitNode> = Vec::new();
    let mut k: usize = 0;
    while k < n
        invariant
            n == commits@.len(),
            perm == idx@.map_values(|x: usize| x as int),
            is_key_order(times_of(commits@), perm),
            k <= n,
            sorted@.len() == k,
            forall|j: int| 0 <= j < k ==> same_commit(#[trigger] sorted@[j], commits@[perm[j]]),
        decreases n - k,
    {
        assert(perm[k as int] == idx@[k as int] as int);
        let c = commits[idx[k]].duplicate();
        sorted.push(c);
        k = k + 1;
    }
    assert(is_time_order(commits@, perm));
    sorted
}

/// Sorting again what the time sort gave back changes nothing: the commits it
/// returns are in time order already, so every stable time order of them keeps
/// each commit where it is.
pub proof fn lemma_time_sort_idempotent(commits: Seq<CommitNode>, perm: Seq<int>, sorted: Seq<CommitNode>, again: Seq<int>)
    requires
        is_time_order(commits, perm),
        sorted.len() == commits.len(),
        forall|k: int| 0 <= k < sorted.len() ==> same_commit(#[trigger] sorted[k], commits[perm[k]]),
        is_time_order(sorted, again),
    ensures
        forall|k: int| 0 <= k < again.len() ==> #[trigger] again[k] == k,
{
    assert(keys_sorted(times_of(sorted))) by {
        assert forall|a: int, b: int| 0 <= a <= b < times_of(sorted).len() implies times_of(sorted)[a] <= times_of(sorted)[b] by {
            assert(same_commit(sorted[a], commits[perm[a]]));
            assert(same_commit(sorted[b], commits[perm[b]]));
            if a < b {
                assert(key_before(times_of(commits), perm[a], perm[b]));
            }
        }
    }
    lemma_sorted_keys_keep_order(times_of(sorted), again);
}


/// A merge node on the picture: its position (hundredths of the picture) and the
/// number of roots drawn around it.
pub struct MergeMark {
    pub x: u32,
    pub y: u32,
    pub roots: usize,
}

/// A tree on the picture: trunk from the root commit's position to the tip's,
/// drawn when the two differ, in the author's colour, and the positions of the
/// leaves (the tree's placed commits).
pub struct TrunkMark {
    pub start: (u32, u32),
    pub end: (u32, u32),
    pub draw_trunk: bool,
    pub color: (u8, u8, u8),
    pub leaves: Vec<(u32, u32)>,
}

/// Everything that the SVG picture of a forest shows, in drawing order.
pub struct SvgScene {
    pub merges: Vec<MergeMark>,
    pub trunks: Vec<TrunkMark>,
}

/// The merge marks of the first `n` merge nodes: one for each node that the layout places.
pub open spec fn merge_marks(forest: &Forest, pos: Seq<(Seq<char>, (u32, u32))>, n: nat) -> Seq<(u32, u32, int)>
    decreases n,
{
    if n == 0 {
        Seq::empty()
    } else {
        let m = forest.merge_nodes@[n - 1];
        let roots = if m.parent_ids@.len() > 2 { m.parent_ids@.len() as int } else { 2 };
        merge_marks(forest, pos, (n - 1) as nat) + match lookup(pos, m.id@) {
            Some(p) => seq![(p.0, p.1, roots)],
            None => Seq::empty(),
        }
    }
}

/// The positions of the placed commits among `ids`, in order.
pub open spec fn leaf_positions(pos: Seq<(Seq<char>, (u32, u32))>, ids: Seq<Seq<char>>) -> Seq<(u32, u32)>
    decreases ids.len(),
{
    if ids.len() == 0 {
        Seq::empty()
    } else {
        leaf_positions(pos, ids.drop_last()) + match lookup(pos, ids.last()) {
            Some(p) => seq![p],
            None => Seq::empty(),
        }
    }
}

/// The trunk mark of a tree, when both its root and its tip are placed.
pub open spec fn trunk_mark(pos: Seq<(Seq<char>, (u32, u32))>, colors: Seq<(Seq<char>, (u8, u8, u8))>, tree: Tree) -> Option<((u32, u32), (u32, u32), bool, (u8, u8, u8), Seq<(u32, u32)>)> {
    match (lookup(pos, tree.root@), lookup(pos, tree.tip@)) {
        (Some(s), Some(e)) => Some((s, e, s != e, author_color_or(colors, tree.author@, (100, 180, 100)), leaf_positions(pos, strings_view(tree.commits@)))),
        _ => None,
    }
}

/// The trunk marks of the first `n` trees.
pub open spec fn trunk_marks(forest: &Forest, pos: Seq<(Seq<char>, (u32, u32))>, colors: Seq<(Seq<char>, (u8, u8, u8))>, n: nat) -> Seq<((u32, u32), (u32, u32), bool, (u8, u8, u8), Seq<(u32, u32)>)>
    decreases n,
{
    if n == 0 {
        Seq::empty()
    } else {
        trunk_marks(forest, pos, colors, (n - 1) as nat) + match trunk_mark(pos, colors, forest.trees@[n - 1]) {
            Some(t) => seq![t],
            None => Seq::empty(),
        }
    }
}

/// The view of a merge mark.
pub open spec fn merge_mark_view(m: MergeMark) -> (u32, u32, int) {
    (m.x, m.y, m.roots as int)
}

/// The view of a trunk mark.
pub open spec fn trunk_mark_view(t: TrunkMark) -> ((u32, u32), (u32, u32), bool, (u8, u8, u8), Seq<(u32, u32)>) {
    (t.start, t.end, t.draw_trunk, t.color, t.leaves@)
}

fn leaves_of(pos: &StrMap<(u32, u32)>, ids: &Vec<String>) -> (r: Vec<(u32, u32)>)
    ensures
        r@ == leaf_positions(pos@, strings_view(ids@)),
{
    let mut r: Vec<(u32, u32)> = Vec::new();
    let mut k: usize = 0;
    while k < ids.len()
        invariant
            k <= ids@.len(),
            r@ == leaf_positions(pos@, strings_view(ids@).subrange(0, k as int)),
        decreases ids.len() - k,
    {
        let sub = Ghost(strings_view(ids@).subrange(0, k + 1));
        assert(sub@.drop_last() =~= strings_view(ids@).subrange(0, k as int));
        assert(sub@.last() == ids@[k as int]@);
        match pos.get(ids[k].as_str()) {
            Some(p) => {
                r.push(*p);
            },
            None => {},
        }
        k = k + 1;
    }
    assert(strings_view(ids@).subrange(0, k as int) =~= strings_view(ids@));
    r
}

/// The scene of the SVG picture: a merge mark for each merge node that the layout
/// places (with as many roots as parents, at least two), then a trunk mark for each
/// tree whose root and tip are both placed, coloured by its author (green when the
/// palette has none).
pub fn svg_scene(forest: &Forest, layout: &LayoutResult, author_colors: &StrMap<(u8, u8, u8)>) -> (scene: SvgScene)
    ensures
        scene.merges@.map_values(|m: MergeMark| merge_mark_view(m)) == merge_marks(forest, layout.node_positions@, forest.merge_nodes@.len()),
        scene.trunks@.map_values(|t: TrunkMark| trunk_mark_view(t)) == trunk_marks(forest, layout.node_positions@, author_colors@, forest.trees@.len()),
{
    let mut merges: Vec<MergeMark> = Vec::new();
    let mut k: usize = 0;
    while k < forest.merge_nodes.len()
        invariant
            k <= forest.merge_nodes@.len(),
            merges@.map_values(|m: MergeMark| merge_mark_view(m)) == merge_marks(forest, layout.node_positions@, k as nat),
        decreases forest.merge_nodes.len() - k,
    {
        let m = &forest.merge_nodes[k];
        let ghost before = merges@;
        match layout.node_positions.get(m.id.as_str()) {
            Some(p) => {
                let roots: usize = if m.parent_ids.len() > 2 { m.parent_ids.len() } else { 2 };
                merges.push(MergeMark { x: p.0, y: p.1, roots });
                assert(merges@.map_values(|m: MergeMark| merge_mark_view(m)) =~= before.map_values(|m: MergeMark| merge_mark_view(m)).push(merge_mark_view(merges@.last())));
            },
            None => {},
        }
        k = k + 1;
        assert(merges@.map_values(|m: MergeMark| merge_mark_view(m)) =~= merge_marks(forest, layout.node_positions@, k as nat));
    }
    let mut trunks: Vec<TrunkMark> = Vec::new();
    let mut t: usize = 0;
    while t < forest.trees.len()
        invariant
            t <= forest.trees@.len(),
            trunks@.map_values(|x: TrunkMark| trunk_mark_view(x)) == trunk_marks(forest, layout.node_positions@, author_colors@, t as nat),
        decreases forest.trees.len() - t,
    {
        let tree = &forest.trees[t];
        let ghost before = trunks@;
        let start = layout.node_positions.get(tree.root.as_str());
        let end = layout.node_positions.get(tree.tip.as_str());
        match (start, end) {
            (Some(s), Some(e)) => {
                let color = author_color(author_colors, tree.author.as_str(), (100, 180, 100));
                let leaves = leaves_of(&layout.node_positions, &tree.commits);
                let draw = s.0 != e.0 || s.1 != e.1;
                trunks.push(TrunkMark { start: *s, end: *e, draw_trunk: draw, color, leaves });
                assert(trunks@.map_values(|x: TrunkMark| trunk_mark_view(x)) =~= before.map_values(|x: TrunkMark| trunk_mark_view(x)).push(trunk_mark_view(trunks@.last())));
            },
            _ => {},
        }
        t = t + 1;
        assert(trunks@.map_values(|x: TrunkMark| trunk_mark_view(x)) =~= trunk_marks(forest, layout.node_positions@, author_colors@, t as nat));
    }
    SvgScene { merges, trunks }
}

} // verus!
