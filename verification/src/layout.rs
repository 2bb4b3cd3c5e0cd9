//! An even layout of the forest: the trees stand side by side across the
//! screen in forest order, each tree's commits go up its trunk (tip at the top,
//! root at the bottom), and a merge node sits where its commit does.
//!
//! Tree centres and merge positions are in thousandths of the screen, commit
//! positions in hundredths of the picture.

use vstd::prelude::*;
use crate::render::LayoutResult;
use crate::strmap::{StrMap, insert_entries, lookup};
use crate::types::{Forest, Tree};

verus! {

/// The centre of tree `t` of `n`: the middle of its `1/n` slice of the width,
/// in thousandths.
pub open spec fn spread_center(t: int, n: int) -> int {
    (2 * t + 1) * 1000 / (2 * (if n > 1 { n } else { 1 }))
}

/// The height of the `k`-th of `len` commits of a trunk, in hundredths: the tip
/// (first) at 10, the root (last) at 90, a lone commit at 50.
pub open spec fn trunk_height(k: int, len: int) -> int {
    if len <= 1 { 50 } else { 10 + 80 * k / (len - 1) }
}

/// The commit positions after placing the first `k` commits of `tree` at
/// column `x`, starting from the entries `base`.
pub open spec fn tree_entries(base: Seq<(Seq<char>, (u32, u32))>, tree: Tree, x: u32, k: nat) -> Seq<(Seq<char>, (u32, u32))>
    decreases k,
{
    if k == 0 {
        base
    } else {
        insert_entries(
            tree_entries(base, tree, x, (k - 1) as nat),
            tree.commits@[k - 1]@,
            (x, trunk_height(k - 1, tree.commits@.len() as int) as u32),
        )
    }
}

/// The commit positions after placing the first `n` trees.
pub open spec fn forest_entries(forest: &Forest, n: nat) -> Seq<(Seq<char>, (u32, u32))>
    decreases n,
{
    if n == 0 {
        Seq::empty()
    } else {
        let tree = forest.trees@[n - 1];
        let x = (spread_center(n - 1, forest.trees@.len() as int) / 10) as u32;
        tree_entries(forest_entries(forest, (n - 1) as nat), tree, x, tree.commits@.len())
    }
}

/// The merge positions of the first `n` merge nodes: each placed commit's
/// position scaled to thousandths.
pub open spec fn merge_entries(forest: &Forest, nodes: Seq<(Seq<char>, (u32, u32))>, n: nat) -> Seq<(Seq<char>, (u32, u32))>
    decreases n,
{
    if n == 0 {
        Seq::empty()
    } else {
        let id = forest.merge_nodes@[n - 1].id@;
        let prev = merge_entries(forest, nodes, (n - 1) as nat);
        match lookup(nodes, id) {
            Some(p) => insert_entries(prev, id, ((p.0 * 10) as u32, (p.1 * 10) as u32)),
            None => prev,
        }
    }
}

/// Every position lies within the picture: columns up to 100, heights up to 90.
pub open spec fn within_picture(s: Seq<(Seq<char>, (u32, u32))>) -> bool {
    forall|i: int| 0 <= i < s.len() ==> (#[trigger] s[i]).1.0 <= 100 && s[i].1.1 <= 90
}

proof fn lemma_insert_within(s: Seq<(Seq<char>, (u32, u32))>, k: Seq<char>, v: (u32, u32))
    requires
        within_picture(s),
        v.0 <= 100,
        v.1 <= 90,
    ensures
        within_picture(insert_entries(s, k, v)),
{
    let t = insert_entries(s, k, v);
    assert forall|i: int| 0 <= i < t.len() implies (#[trigger] t[i]).1.0 <= 100 && t[i].1.1 <= 90 by {
        if i < s.len() {
            assert(t[i] == s[i] || t[i] == (k, v));
        }
    }
}

proof fn lemma_lookup_within(s: Seq<(Seq<char>, (u32, u32))>, k: Seq<char>)
    requires
        within_picture(s),
    ensures
        match lookup(s, k) {
            Some(p) => p.0 <= 100 && p.1 <= 90,
            None => true,
        },
    decreases s.len(),
{
    if s.len() > 0 {
        assert(s[s.len() - 1].1.0 <= 100);
        assert(within_picture(s.drop_last())) by {
            assert forall|i: int| 0 <= i < s.drop_last().len() implies (#[trigger] s.drop_last()[i]).1.0 <= 100 && s.drop_last()[i].1.1 <= 90 by {
                assert(s.drop_last()[i] == s[i]);
            }
        }
        lemma_lookup_within(s.drop_last(), k);
    }
}

/// Spreads the forest evenly: tree `t` of `n` centred at `(2t + 1) / 2n` of the
/// width; the `k`-th of a tree's `len` commits at its centre, at height
/// `10 + 80k / (len - 1)` hundredths (50 for a lone commit), a commit of several
/// trees where its last tree puts it; each merge node whose commit is placed at
/// that commit's position.
pub fn spread_layout(forest: &Forest) -> (layout: LayoutResult)
    ensures
        layout.tree_centers@.len() == forest.trees@.len(),
        forall|t: int| 0 <= t < forest.trees@.len() ==> #[trigger] layout.tree_centers@[t] == spread_center(t, forest.trees@.len() as int),
        layout.node_positions@ == forest_entries(forest, forest.trees@.len()),
        layout.merge_positions@ == merge_entries(forest, layout.node_positions@, forest.merge_nodes@.len()),
{
    let n = forest.trees.len();
    let nn: u128 = if n > 1 { n as u128 } else { 1 };
    let mut centers: Vec<u32> = Vec::new();
    let mut nodes: StrMap<(u32, u32)> = StrMap::new();
    let mut t: usize = 0;
    while t < n
        invariant
            n == forest.trees@.len(),
            nn == (if n > 1 { n as int } else { 1 }),
            t <= n,
            centers@.len() == t,
            forall|j: int| 0 <= j < t ==> #[trigger] centers@[j] == spread_center(j, n as int),
            nodes@ == forest_entries(forest, t as nat),
            within_picture(nodes@),
        decreases n - t,
    {
        proof {
            assert((2 * t + 1) * 1000 / (2 * nn) <= 1000) by (nonlinear_arith)
                requires
                    t < n,
                    nn >= n,
                    nn >= 1,
            ;
        }
        let c: u32 = (((2 * (t as u128) + 1) * 1000) / (2 * nn)) as u32;
        centers.push(c);
        let x: u32 = c / 10;
        let tree = &forest.trees[t];
        let len = tree.commits.len();
        let ghost base = nodes@;
        let mut k: usize = 0;
        while k < len
            invariant
                len == tree.commits@.len(),
                k <= len,
                x <= 100,
                nodes@ == tree_entries(base, *tree, x, k as nat),
                within_picture(nodes@),
            decreases len - k,
        {
            let y: u32 = if len <= 1 {
                50
            } else {
                proof {
                    assert(80 * k / (len - 1) <= 80) by (nonlinear_arith)
                        requires
                            k < len,
                            len >= 2,
                    ;
                }
                (10 + (80 * (k as u128)) / ((len - 1) as u128)) as u32
            };
            proof {
                lemma_insert_within(nodes@, tree.commits@[k as int]@, (x, y));
            }
            nodes.insert(tree.commits[k].clone(), (x, y));
            k = k + 1;
        }
        t = t + 1;
    }
    let mut merges: StrMap<(u32, u32)> = StrMap::new();
    let mut m: usize = 0;
    while m < forest.merge_nodes.len()
        invariant
            m <= forest.merge_nodes@.len(),
            nodes@ == forest_entries(forest, n as nat),
            within_picture(nodes@),
            merges@ == merge_entries(forest, nodes@, m as nat),
        decreases forest.merge_nodes.len() - m,
    {
        let id = &forest.merge_nodes[m].id;
        match nodes.get(id.as_str()) {
            Some(p) => {
                let p = *p;
                proof {
                    lemma_lookup_within(nodes@, id@);
                }
                merges.insert(id.clone(), (p.0 * 10, p.1 * 10));
            },
            None => {},
        }
        m = m + 1;
    }
    LayoutResult { tree_centers: centers, merge_positions: merges, node_positions: nodes }
}

} // verus!
