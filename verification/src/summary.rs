//! Summary statistics of a forest and their text report.

use vstd::prelude::*;
use crate::decimal::{dec_nat, push_decimal};
use crate::strmap::{StrMap, has_key, lemma_lookup_at, lemma_lookup_absent};
use crate::text::{push_repeat, push_str, repeat_seq};
use crate::types::{Forest, Tree};

verus! {

/// Summary statistics of a forest (the average per tree is left to the caller,
/// as it is a fraction).
pub struct SummaryStats {
    /// Number of commits.
    pub total_commits: usize,
    /// Number of distinct authors.
    pub unique_authors: usize,
    /// Number of long-lived branches: trees with more than one commit.
    pub branch_count: usize,
    /// Number of merge nodes.
    pub merge_count: usize,
    /// Number of merge storms.
    pub merge_storm_count: usize,
    /// Number of trees.
    pub tree_count: usize,
    /// Height of the forest: the largest number of commits in a tree.
    pub max_depth: usize,
    /// Commits per author.
    pub author_commit_counts: StrMap<usize>,
    /// Commits in the longest tree (0 without trees).
    pub longest_branch_length: usize,
    /// Commits in the shortest non-empty tree (0 without one).
    pub shortest_branch_length: usize,
    /// Number of merge storms.
    pub storm_count: usize,
}

/// The number of the first `n` commits of the map that `author` wrote.
pub open spec fn count_by_author(commits: Seq<(Seq<char>, crate::types::CommitNode)>, author: Seq<char>, n: nat) -> nat
    decreases n,
{
    if n == 0 {
        0
    } else {
        count_by_author(commits, author, (n - 1) as nat) + (if commits[n - 1].1.author@ == author { 1nat } else { 0nat })
    }
}

/// Whether `counts` holds, for each author among the first `n` commits, the
/// number of those commits that the author wrote, and no other key.
pub open spec fn counts_authors(commits: Seq<(Seq<char>, crate::types::CommitNode)>, counts: Seq<(Seq<char>, usize)>, n: nat) -> bool {
    &&& forall|i: int| 0 <= i < n ==> has_key(counts, #[trigger] commits[i].1.author@)
    &&& forall|j: int| 0 <= j < counts.len() ==> (#[trigger] counts[j]).1 == count_by_author(commits, counts[j].0, n) && count_by_author(commits, counts[j].0, n) > 0
}

/// The largest commit count among the first `n` trees (0 for none).
pub open spec fn max_commits(trees: Seq<Tree>, n: nat) -> int
    decreases n,
{
    if n == 0 {
        0
    } else {
        let m = max_commits(trees, (n - 1) as nat);
        let c = trees[n - 1].commit_count as int;
        if c > m { c } else { m }
    }
}

/// The smallest commit count among the non-empty trees of the first `n` trees
/// (0 when none of them has a commit).
pub open spec fn min_commits(trees: Seq<Tree>, n: nat) -> int
    decreases n,
{
    if n == 0 {
        0
    } else {
        let m = min_commits(trees, (n - 1) as nat);
        let c = trees[n - 1].commit_count as int;
        if c == 0 { m } else if m == 0 || c < m { c } else { m }
    }
}

/// The shortest non-empty tree is never longer than the longest tree.
pub proof fn lemma_shortest_at_most_longest(trees: Seq<Tree>, n: nat)
    requires
        n <= trees.len(),
    ensures
        0 <= min_commits(trees, n) <= max_commits(trees, n),
    decreases n,
{
    if n > 0 {
        lemma_shortest_at_most_longest(trees, (n - 1) as nat);
    }
}

/// The shortest branch is the smallest commit count among the non-empty trees:
/// no non-empty tree is shorter, and some non-empty tree has exactly that many
/// commits; it is 0 exactly when no tree has a commit.
pub proof fn lemma_shortest_is_least_nonempty(trees: Seq<Tree>, n: nat)
    requires
        n <= trees.len(),
    ensures
        forall|t: int| 0 <= t < n && (#[trigger] trees[t]).commit_count > 0 ==> min_commits(trees, n) <= trees[t].commit_count,
        min_commits(trees, n) == 0 <==> (forall|t: int| 0 <= t < n ==> (#[trigger] trees[t]).commit_count == 0),
        min_commits(trees, n) != 0 ==> exists|t: int| 0 <= t < n && (#[trigger] trees[t]).commit_count == min_commits(trees, n),
    decreases n,
{
    if n > 0 {
        lemma_shortest_is_least_nonempty(trees, (n - 1) as nat);
        let m = min_commits(trees, (n - 1) as nat);
        let c = trees[n - 1].commit_count as int;
        if c != 0 && (m == 0 || c < m) {
            assert(trees[n - 1].commit_count == min_commits(trees, n));
        } else if m != 0 {
            let t = choose|t: int| 0 <= t < n - 1 && (#[trigger] trees[t]).commit_count == m;
            assert(trees[t].commit_count == min_commits(trees, n));
        }
    }
}

/// The longest branch is the largest commit count of a tree: no tree is longer,
/// and some tree has exactly that many commits (0 without trees).
pub proof fn lemma_longest_is_greatest(trees: Seq<Tree>, n: nat)
    requires
        n <= trees.len(),
    ensures
        forall|t: int| 0 <= t < n ==> (#[trigger] trees[t]).commit_count <= max_commits(trees, n),
        n == 0 ==> max_commits(trees, n) == 0,
        n > 0 ==> exists|t: int| 0 <= t < n && (#[trigger] trees[t]).commit_count == max_commits(trees, n),
    decreases n,
{
    if n > 0 {
        lemma_longest_is_greatest(trees, (n - 1) as nat);
        let m = max_commits(trees, (n - 1) as nat);
        let c = trees[n - 1].commit_count as int;
        if c > m || n == 1 {
            if n == 1 {
                assert(max_commits(trees, 0) == 0);
            }
            assert(trees[n - 1].commit_count == max_commits(trees, n));
        } else {
            let t = choose|t: int| 0 <= t < n - 1 && (#[trigger] trees[t]).commit_count == m;
            assert(trees[t].commit_count == max_commits(trees, n));
        }
    }
}

/// The number of the first `n` trees with more than one commit.
pub open spec fn long_lived(trees: Seq<Tree>, n: nat) -> nat
    decreases n,
{
    if n == 0 {
        0
    } else {
        long_lived(trees, (n - 1) as nat) + (if trees[n - 1].commit_count > 1 { 1nat } else { 0nat })
    }
}

proof fn lemma_count_bound(commits: Seq<(Seq<char>, crate::types::CommitNode)>, author: Seq<char>, n: nat)
    ensures
        count_by_author(commits, author, n) <= n,
    decreases n,
{
    if n > 0 {
        lemma_count_bound(commits, author, (n - 1) as nat);
    }
}

/// Counts the commits of each author.
fn author_counts(forest: &Forest) -> (counts: StrMap<usize>)
    ensures
        counts_authors(forest.commit_map@, counts@, forest.commit_map@.len()),
{
    let mut counts: StrMap<usize> = StrMap::new();
    let n = forest.commit_map.len();
    let mut i: usize = 0;
    while i < n
        invariant
            n == forest.commit_map@.len(),
            i <= n,
            counts_authors(forest.commit_map@, counts@, i as nat),
        decreases n - i,
    {
        let node = forest.commit_map.value_at(i);
        let ghost a = node.author@;
        let ghost before = counts@;
        proof {
            use_type_invariant(&counts);
            lemma_count_bound(forest.commit_map@, a, i as nat);
        }
        let c: usize = match counts.get(node.author.as_str()) {
            Some(v) => *v,
            None => 0,
        };
        proof {
            if has_key(before, a) {
                let j = choose|j: int| 0 <= j < before.len() && #[trigger] before[j].0 == a;
                lemma_lookup_at(before, j);
                assert(c == count_by_author(forest.commit_map@, a, i as nat));
            } else {
                lemma_lookup_absent(before, a);
                assert forall|j: int| 0 <= j < i implies #[trigger] forest.commit_map@[j].1.author@ != a by {
                    assert(has_key(before, forest.commit_map@[j].1.author@));
                }
                assert(count_by_author(forest.commit_map@, a, i as nat) == 0) by {
                    lemma_count_zero(forest.commit_map@, a, i as nat);
                }
            }
        }
        counts.insert(node.author.clone(), c + 1);
        proof {
            let after = counts@;
            assert forall|k: int| 0 <= k < i + 1 implies has_key(after, #[trigger] forest.commit_map@[k].1.author@) by {
                let b = forest.commit_map@[k].1.author@;
                if b == a {
                    crate::strmap::lemma_insert_unique(before, a, (c + 1) as usize);
                } else {
                    let j = choose|j: int| 0 <= j < before.len() && #[trigger] before[j].0 == b;
                    if has_key(before, a) {
                        assert(after[j].0 == b);
                    } else {
                        assert(after[j] == before[j]);
                    }
                }
            }
            assert forall|j: int| 0 <= j < after.len() implies (#[trigger] after[j]).1 == count_by_author(forest.commit_map@, after[j].0, (i + 1) as nat) && count_by_author(forest.commit_map@, after[j].0, (i + 1) as nat) > 0 by {
                if j < before.len() {
                    if before[j].0 == a {
                        assert(after[j] == (a, (c + 1) as usize));
                    } else {
                        if has_key(before, a) {
                            assert(after[j] == before[j]);
                        } else {
                            assert(after[j] == before[j]);
                        }
                    }
                } else {
                    assert(after[j] == (a, (c + 1) as usize));
                }
            }
        }
        i = i + 1;
    }
    counts
}

proof fn lemma_count_zero(commits: Seq<(Seq<char>, crate::types::CommitNode)>, author: Seq<char>, n: nat)
    requires
        forall|j: int| 0 <= j < n ==> #[trigger] commits[j].1.author@ != author,
    ensures
        count_by_author(commits, author, n) == 0,
    decreases n,
{
    if n > 0 {
        lemma_count_zero(commits, author, (n - 1) as nat);
    }
}


/// Whether `s` holds the statistics of `forest` with `storms` merge storms.
pub open spec fn is_summary_of(forest: &Forest, storms: int, s: SummaryStats) -> bool {
    let trees = forest.trees@;
    &&& s.total_commits == forest.commit_map@.len()
    &&& counts_authors(forest.commit_map@, s.author_commit_counts@, forest.commit_map@.len())
    &&& s.unique_authors == s.author_commit_counts@.len()
    &&& s.merge_count == forest.merge_nodes@.len()
    &&& s.tree_count == trees.len()
    &&& s.branch_count == long_lived(trees, trees.len())
    &&& s.max_depth == max_commits(trees, trees.len())
    &&& s.longest_branch_length == max_commits(trees, trees.len())
    &&& s.shortest_branch_length == min_commits(trees, trees.len())
    &&& s.merge_storm_count == storms
    &&& s.storm_count == storms
}

/// Computes the summary statistics of a forest with `storms` merge storms.
pub fn summary_stats(forest: &Forest, storms: usize) -> (s: SummaryStats)
    requires
        forall|t: int| 0 <= t < forest.trees@.len() ==> (#[trigger] forest.trees@[t]).commit_count <= usize::MAX,
    ensures
        is_summary_of(forest, storms as int, s),
        forall|t: int| 0 <= t < forest.trees@.len() && (#[trigger] forest.trees@[t]).commit_count > 0 ==> s.shortest_branch_length <= forest.trees@[t].commit_count,
        s.shortest_branch_length == 0 <==> (forall|t: int| 0 <= t < forest.trees@.len() ==> (#[trigger] forest.trees@[t]).commit_count == 0),
        s.shortest_branch_length != 0 ==> exists|t: int| 0 <= t < forest.trees@.len() && (#[trigger] forest.trees@[t]).commit_count == s.shortest_branch_length,
        forall|t: int| 0 <= t < forest.trees@.len() ==> (#[trigger] forest.trees@[t]).commit_count <= s.longest_branch_length,
        forest.trees@.len() > 0 ==> exists|t: int| 0 <= t < forest.trees@.len() && (#[trigger] forest.trees@[t]).commit_count == s.longest_branch_length,
        forest.trees@.len() == 0 ==> s.longest_branch_length == 0,
{
    proof {
        lemma_shortest_is_least_nonempty(forest.trees@, forest.trees@.len());
        lemma_longest_is_greatest(forest.trees@, forest.trees@.len());
    }
    let counts = author_counts(forest);
    let n = forest.trees.len();
    let mut longest: usize = 0;
    let mut shortest: usize = 0;
    let mut lived: usize = 0;
    let mut t: usize = 0;
    while t < n
        invariant
            n == forest.trees@.len(),
            t <= n,
            forall|u: int| 0 <= u < forest.trees@.len() ==> (#[trigger] forest.trees@[u]).commit_count <= usize::MAX,
            longest == max_commits(forest.trees@, t as nat),
            shortest == min_commits(forest.trees@, t as nat),
            lived == long_lived(forest.trees@, t as nat),
            lived <= t,
        decreases n - t,
    {
        let c = forest.trees[t].commit_count as usize;
        if c > longest {
            longest = c;
        }
        if c > 0 && (shortest == 0 || c < shortest) {
            shortest = c;
        }
        if c > 1 {
            lived = lived + 1;
        }
        t = t + 1;
    }
    SummaryStats {
        total_commits: forest.commit_map.len(),
        unique_authors: counts.len(),
        branch_count: lived,
        merge_count: forest.merge_nodes.len(),
        merge_storm_count: storms,
        tree_count: n,
        max_depth: longest,
        author_commit_counts: counts,
        longest_branch_length: longest,
        shortest_branch_length: shortest,
        storm_count: storms,
    }
}

/// `perm` lists every author once, most commits first, keeping map order among equal counts.
pub open spec fn is_count_order(counts: Seq<(Seq<char>, usize)>, perm: Seq<int>) -> bool {
    &&& perm.len() == counts.len()
    &&& forall|k: int| 0 <= k < perm.len() ==> 0 <= #[trigger] perm[k] < counts.len()
    &&& perm.no_duplicates()
    &&& forall|a: int, b: int| 0 <= a < b < perm.len() ==> count_before(counts, #[trigger] perm[a], #[trigger] perm[b])
}

/// Author `a` is listed before author `b`: more commits, or as many and earlier in the map.
pub open spec fn count_before(counts: Seq<(Seq<char>, usize)>, a: int, b: int) -> bool {
    counts[a].1 > counts[b].1 || (counts[a].1 == counts[b].1 && a < b)
}

/// The width of an author's bar: `ceil(30 * count / total)`, and none for an
/// author without commits.
pub open spec fn bar_width(count: int, total: int) -> int {
    if count == 0 { 0 } else { (30 * count + total - 1) / total }
}

/// The breakdown lines of the authors at the first `n` positions of `perm`.
pub open spec fn breakdown(counts: Seq<(Seq<char>, usize)>, perm: Seq<int>, total: int, n: nat) -> Seq<char>
    decreases n,
{
    if n == 0 {
        Seq::empty()
    } else {
        let e = counts[perm[n - 1]];
        breakdown(counts, perm, total, (n - 1) as nat) + "  "@ + e.0 + ": "@ + dec_nat(e.1 as nat) + " "@
            + repeat_seq("█"@, bar_width(e.1 as int, total) as nat) + "\n"@
    }
}

/// The summary report with the average line `avg` and authors in the order `perm`.
pub open spec fn summary_text(s: SummaryStats, avg: Seq<char>, perm: Seq<int>) -> Seq<char> {
    "🌲 Git Forest Summary\n"@
        + "━━━━━━━━━━━━━━━━━━━━━\n"@
        + "Total commits: "@ + dec_nat(s.total_commits as nat) + "\n"@
        + "Unique authors: "@ + dec_nat(s.unique_authors as nat) + "\n"@
        + "Trees (branches): "@ + dec_nat(s.tree_count as nat) + "\n"@
        + "Long-lived branches: "@ + dec_nat(s.branch_count as nat) + "\n"@
        + "Merge commits: "@ + dec_nat(s.merge_count as nat) + "\n"@
        + "Merge storms: "@ + dec_nat(s.merge_storm_count as nat) + "\n"@
        + "Average commits per tree: "@ + avg + "\n"@
        + "Max depth: "@ + dec_nat(s.max_depth as nat) + "\n"@
        + "Longest branch: "@ + dec_nat(s.longest_branch_length as nat) + " commits\n"@
        + "Shortest branch: "@ + dec_nat(s.shortest_branch_length as nat) + " commits\n"@
        + "\nAuthor breakdown:\n"@
        + breakdown(s.author_commit_counts@, perm, s.total_commits as int, s.author_commit_counts@.len())
}

/// The author positions, most commits first, map order among equal counts.
fn count_order(counts: &StrMap<usize>) -> (idx: Vec<usize>)
    ensures
        is_count_order(counts@, idx@.map_values(|x: usize| x as int)),
{
    let n = counts.len();
    let mut idx: Vec<usize> = Vec::new();
    let mut i: usize = 0;
    while i < n
        invariant
            n == counts@.len(),
            i <= n,
            idx@.len() == i,
            forall|k: int| 0 <= k < idx@.len() ==> #[trigger] idx@[k] < i,
            forall|a: int, b: int| 0 <= a < idx@.len() && 0 <= b < idx@.len() && a != b ==> #[trigger] idx@[a] != #[trigger] idx@[b],
            forall|a: int, b: int| 0 <= a < b < idx@.len() ==> count_before(counts@, #[trigger] idx@[a] as int, #[trigger] idx@[b] as int),
        decreases n - i,
    {
        let c = *counts.value_at(i);
        let mut p: usize = 0;
        while p < idx.len() && *counts.value_at(idx[p]) >= c
            invariant
                n == counts@.len(),
                i < n,
                c == counts@[i as int].1,
                p <= idx@.len(),
                forall|k: int| 0 <= k < idx@.len() ==> #[trigger] idx@[k] < i,
                forall|k: int| 0 <= k < p ==> counts@[#[trigger] idx@[k] as int].1 >= c,
            decreases idx.len() - p,
        {
            p = p + 1;
        }
        let ghost old_idx = idx@;
        proof {
            if p < idx@.len() {
                assert forall|k: int| p <= k < idx@.len() implies counts@[#[trigger] idx@[k] as int].1 < c by {
                    if k > p {
                        assert(count_before(counts@, idx@[p as int] as int, idx@[k] as int));
                    }
                }
            }
        }
        idx.insert(p, i);
        proof {
            assert forall|k: int| 0 <= k < idx@.len() implies #[trigger] idx@[k] == (if k < p { old_idx[k] } else if k == p { i } else { old_idx[k - 1] }) by {}
            assert forall|a: int, b: int| 0 <= a < b < idx@.len() implies count_before(counts@, #[trigger] idx@[a] as int, #[trigger] idx@[b] as int) by {
                if b == p {
                    assert(counts@[old_idx[a] as int].1 >= c);
                    assert(old_idx[a] < i);
                } else if a == p {
                    assert(counts@[old_idx[b - 1] as int].1 < c);
                } else if a < p && b > p {
                    assert(count_before(counts@, old_idx[a] as int, old_idx[b - 1] as int));
                } else if b < p {
                    assert(count_before(counts@, old_idx[a] as int, old_idx[b] as int));
                } else {
                    assert(count_before(counts@, old_idx[a - 1] as int, old_idx[b - 1] as int));
                }
            }
            assert forall|a: int, b: int| 0 <= a < idx@.len() && 0 <= b < idx@.len() && a != b implies #[trigger] idx@[a] != #[trigger] idx@[b] by {
                if a != p && b != p {
                    let a2 = if a < p { a } else { a - 1 };
                    let b2 = if b < p { b } else { b - 1 };
                    assert(idx@[a] == old_idx[a2]);
                    assert(idx@[b] == old_idx[b2]);
                } else if a == p {
                    let b2 = if b < p { b } else { b - 1 };
                    assert(idx@[b] == old_idx[b2]);
                } else {
                    let a2 = if a < p { a } else { a - 1 };
                    assert(idx@[a] == old_idx[a2]);
                }
            }
        }
        i = i + 1;
    }
    proof {
        let perm = idx@.map_values(|x: usize| x as int);
        assert forall|a: int, b: int| 0 <= a < perm.len() && 0 <= b < perm.len() && a != b implies perm[a] != perm[b] by {
            assert(idx@[a] != idx@[b]);
        }
        assert forall|a: int, b: int| 0 <= a < b < perm.len() implies count_before(counts@, #[trigger] perm[a], #[trigger] perm[b]) by {
            assert(perm[a] == idx@[a] as int);
            assert(perm[b] == idx@[b] as int);
        }
    }
    idx
}

fn push_line(s: &mut String, label: &str, n: usize, tail: &str)
    ensures
        final(s)@ == old(s)@ + label@ + dec_nat(n as nat) + tail@,
{
    push_str(s, label);
    push_decimal(s, n as u64);
    push_str(s, tail);
}

/// The summary report: the counts, the average line `avg` as given, and one line
/// per author, most commits first, with a bar of `ceil(30 * count / total)` blocks
/// (none for an author without commits).
pub fn render_summary(s: &SummaryStats, avg: &str) -> (out: String)
    requires
        forall|j: int| 0 <= j < s.author_commit_counts@.len() ==> (#[trigger] s.author_commit_counts@[j]).1 > 0 ==> s.total_commits > 0,
        forall|j: int| 0 <= j < s.author_commit_counts@.len() ==> 30 * (#[trigger] s.author_commit_counts@[j]).1 <= usize::MAX,
    ensures
        exists|perm: Seq<int>| #[trigger] is_count_order(s.author_commit_counts@, perm) && out@ == summary_text(*s, avg@, perm),
{
    let mut out = String::new();
    push_str(&mut out, "🌲 Git Forest Summary\n");
    push_str(&mut out, "━━━━━━━━━━━━━━━━━━━━━\n");
    push_line(&mut out, "Total commits: ", s.total_commits, "\n");
    push_line(&mut out, "Unique authors: ", s.unique_authors, "\n");
    push_line(&mut out, "Trees (branches): ", s.tree_count, "\n");
    push_line(&mut out, "Long-lived branches: ", s.branch_count, "\n");
    push_line(&mut out, "Merge commits: ", s.merge_count, "\n");
    push_line(&mut out, "Merge storms: ", s.merge_storm_count, "\n");
    push_str(&mut out, "Average commits per tree: ");
    push_str(&mut out, avg);
    push_str(&mut out, "\n");
    push_line(&mut out, "Max depth: ", s.max_depth, "\n");
    push_line(&mut out, "Longest branch: ", s.longest_branch_length, " commits\n");
    push_line(&mut out, "Shortest branch: ", s.shortest_branch_length, " commits\n");
    push_str(&mut out, "\nAuthor breakdown:\n");
    let ghost head = out@;
    let idx = count_order(&s.author_commit_counts);
    let ghost perm = idx@.map_values(|x: usize| x as int);
    let total = s.total_commits;
    let mut k: usize = 0;
    while k < idx.len()
        invariant
            k <= idx@.len(),
            idx@.len() == s.author_commit_counts@.len(),
            perm == idx@.map_values(|x: usize| x as int),
            is_count_order(s.author_commit_counts@, perm),
            total == s.total_commits,
            forall|j: int| 0 <= j < s.author_commit_counts@.len() ==> (#[trigger] s.author_commit_counts@[j]).1 > 0 ==> s.total_commits > 0,
            forall|j: int| 0 <= j < s.author_commit_counts@.len() ==> 30 * (#[trigger] s.author_commit_counts@[j]).1 <= usize::MAX,
            out@ == head + breakdown(s.author_commit_counts@, perm, total as int, k as nat),
        decreases idx.len() - k,
    {
        let j = idx[k];
        assert(perm[k as int] == j as int);
        let count = *s.author_commit_counts.value_at(j);
        let key = s.author_commit_counts.key_at(j);
        assert(s.author_commit_counts@[j as int].1 == count);
        let width: usize = if count == 0 {
            0
        } else {
            proof {
                assert((30 * count + total - 1) / (total as int) <= 30 * count) by (nonlinear_arith)
                    requires
                        count >= 1,
                        total >= 1,
                ;
                assert((30 * count + total - 1) / (total as int) >= 0) by (nonlinear_arith)
                    requires
                        total >= 1,
                        count >= 0,
                ;
            }
            ((30 * (count as u128) + (total as u128) - 1) / (total as u128)) as usize
        };
        push_str(&mut out, "  ");
        push_str(&mut out, key.as_str());
        push_str(&mut out, ": ");
        push_decimal(&mut out, count as u64);
        push_str(&mut out, " ");
        push_repeat(&mut out, "█", width);
        push_str(&mut out, "\n");
        k = k + 1;
        assert(out@ =~= head + breakdown(s.author_commit_counts@, perm, total as int, k as nat));
    }
    assert(out@ =~= summary_text(*s, avg@, perm));
    out
}

} // verus!
