//! Building the forest from the commits of a repository: children lists,
//! merge nodes, first-parent trunks (trees) and commits grouped by author.
//! Reading the repository itself is done by the caller, which hands over one
//! record per commit in walk order.

use vstd::prelude::*;
use crate::strmap::{StrMap, has_key};
use crate::text::str_eq;
use crate::types::{CommitNode, Forest, MergeNode, Tree, copy_strings, strings_view};

verus! {

/// One commit as read from the repository.
pub struct CommitRecord {
    pub id: String,
    pub author: String,
    pub message: String,
    pub time: i64,
    pub parent_ids: Vec<String>,
}

/// The result of scanning a repository.
pub struct ScanResult {
    pub forest: Forest,
    pub trees: Vec<Tree>,
    pub commit_count: usize,
    pub branch_count: usize,
}

/// No two records share an id.
pub open spec fn unique_ids(recs: Seq<CommitRecord>) -> bool {
    forall|i: int, j: int| 0 <= i < recs.len() && 0 <= j < recs.len() && i != j ==> #[trigger] recs[i].id@ != #[trigger] recs[j].id@
}

/// The position of the record with id `id`, if there is one.
pub open spec fn id_index(recs: Seq<CommitRecord>, id: Seq<char>) -> Option<int> {
    if exists|i: int| 0 <= i < recs.len() && #[trigger] recs[i].id@ == id {
        Some(choose|i: int| 0 <= i < recs.len() && #[trigger] recs[i].id@ == id)
    } else {
        None
    }
}

/// `id` once for each time `t` occurs among the parent ids `ps`.
pub open spec fn id_copies(id: Seq<char>, ps: Seq<String>, t: Seq<char>) -> Seq<Seq<char>>
    decreases ps.len(),
{
    if ps.len() == 0 {
        Seq::empty()
    } else {
        id_copies(id, ps.drop_last(), t) + (if ps.last()@ == t { seq![id] } else { Seq::empty() })
    }
}

/// The ids of the commits that name `t` as a parent, in record order, one entry
/// per naming.
pub open spec fn children_of(recs: Seq<CommitRecord>, t: Seq<char>) -> Seq<Seq<char>>
    decreases recs.len(),
{
    if recs.len() == 0 {
        Seq::empty()
    } else {
        children_of(recs.drop_last(), t) + id_copies(recs.last().id@, recs.last().parent_ids@, t)
    }
}

/// The parent ids among `ps` that are ids of records, in order.
pub open spec fn known_parents(recs: Seq<CommitRecord>, ps: Seq<String>) -> Seq<Seq<char>>
    decreases ps.len(),
{
    if ps.len() == 0 {
        Seq::empty()
    } else {
        known_parents(recs, ps.drop_last()) + (if id_index(recs, ps.last()@) is Some { seq![ps.last()@] } else { Seq::empty() })
    }
}

/// The ids of the commits of `author`, in record order.
pub open spec fn ids_by_author(recs: Seq<CommitRecord>, author: Seq<char>) -> Seq<Seq<char>>
    decreases recs.len(),
{
    if recs.len() == 0 {
        Seq::empty()
    } else {
        ids_by_author(recs.drop_last(), author) + (if recs.last().author@ == author { seq![recs.last().id@] } else { Seq::empty() })
    }
}

/// The positions of the merge commits (two or more parents), in order.
pub open spec fn merge_indices(recs: Seq<CommitRecord>) -> Seq<int>
    decreases recs.len(),
{
    if recs.len() == 0 {
        Seq::empty()
    } else {
        merge_indices(recs.drop_last()) + (if recs.last().parent_ids@.len() >= 2 { seq![recs.len() - 1] } else { Seq::empty() })
    }
}

/// Whether `node` is the commit node of record `i`.
pub open spec fn node_of_record(recs: Seq<CommitRecord>, i: int, node: CommitNode) -> bool {
    &&& node.id@ == recs[i].id@
    &&& node.author@ == recs[i].author@
    &&& node.message@ == recs[i].message@
    &&& node.time == recs[i].time
    &&& strings_view(node.parent_ids@) == strings_view(recs[i].parent_ids@)
    &&& strings_view(node.children_ids@) == children_of(recs, recs[i].id@)
    &&& node.branch is None
}

/// Whether `m` is the merge node of record `i`.
pub open spec fn merge_of_record(recs: Seq<CommitRecord>, i: int, m: MergeNode) -> bool {
    &&& m.id@ == recs[i].id@
    &&& strings_view(m.parent_ids@) == known_parents(recs, recs[i].parent_ids@)
    &&& strings_view(m.child_ids@) == children_of(recs, recs[i].id@)
    &&& node_of_record(recs, i, m.commit)
    &&& m.degree == recs[i].parent_ids@.len()
}

/// The record that the first parent of record `i` names, if it is a record.
pub open spec fn first_parent_index(recs: Seq<CommitRecord>, i: int) -> Option<int> {
    if recs[i].parent_ids@.len() == 0 {
        None
    } else {
        id_index(recs, recs[i].parent_ids@[0]@)
    }
}

/// The positions that the first `upto` trunks cover.
pub open spec fn covered(trunks: Seq<Seq<int>>, upto: int) -> Set<int> {
    Set::new(|x: int| exists|t: int, k: int| 0 <= t < upto && 0 <= k < trunks[t].len() && #[trigger] trunks[t][k] == x)
}

/// Whether trunk `t` is the first-parent walk that the scan takes from the
/// lowest position that the earlier trunks leave uncovered: it follows first
/// parents through records not yet covered, and stops at a commit without a
/// recorded first parent or whose first parent is already covered.
pub open spec fn is_trunk(recs: Seq<CommitRecord>, trunks: Seq<Seq<int>>, t: int) -> bool {
    let tr = trunks[t];
    let before = covered(trunks, t);
    &&& tr.len() > 0
    &&& 0 <= tr[0] < recs.len()
    &&& !before.contains(tr[0])
    &&& forall|j: int| 0 <= j < tr[0] ==> before.contains(j)
    &&& forall|k: int| 0 <= k < tr.len() - 1 ==> first_parent_index(recs, #[trigger] tr[k]) == Some(tr[k + 1])
    &&& forall|k: int| 0 <= k < tr.len() ==> !before.contains(#[trigger] tr[k]) && 0 <= tr[k] < recs.len()
    &&& tr.no_duplicates()
    &&& match first_parent_index(recs, tr.last()) {
        None => true,
        Some(x) => before.contains(x) || tr.contains(x),
    }
}

/// Whether `trunks` is the decomposition of the records into first-parent trunks
/// that the scan produces: each trunk as `is_trunk` says, and together they
/// cover every record.
pub open spec fn is_trunk_decomposition(recs: Seq<CommitRecord>, trunks: Seq<Seq<int>>) -> bool {
    &&& forall|t: int| 0 <= t < trunks.len() ==> is_trunk(recs, trunks, t)
    &&& forall|j: int| 0 <= j < recs.len() ==> covered(trunks, trunks.len() as int).contains(j)
}

/// Whether `tree` is the tree of trunk `tr`: its commits are the trunk's ids from
/// tip to root, its author is the tip's author.
pub open spec fn tree_of_trunk(recs: Seq<CommitRecord>, tr: Seq<int>, tree: Tree) -> bool {
    &&& strings_view(tree.commits@) == tr.map_values(|i: int| recs[i].id@)
    &&& tree.tip@ == recs[tr[0]].id@
    &&& tree.root@ == recs[tr.last()].id@
    &&& tree.author@ == recs[tr[0]].author@
    &&& tree.branch@ == Seq::<char>::empty()
    &&& tree.commit_count == tr.len()
}

/// Whether `trees` are the trees of the trunks, in order.
pub open spec fn trees_of_trunks(recs: Seq<CommitRecord>, trunks: Seq<Seq<int>>, trees: Seq<Tree>) -> bool {
    &&& trees.len() == trunks.len()
    &&& forall|t: int| 0 <= t < trees.len() ==> tree_of_trunk(recs, trunks[t], #[trigger] trees[t])
}

/// The position of the record with id `id`.
fn find_record(recs: &Vec<CommitRecord>, id: &str) -> (r: Option<usize>)
    requires
        unique_ids(recs@),
    ensures
        match r {
            Some(i) => id_index(recs@, id@) == Some(i as int),
            None => id_index(recs@, id@) is None,
        },
{
    let mut i: usize = 0;
    while i < recs.len()
        invariant
            unique_ids(recs@),
            i <= recs.len(),
            forall|j: int| 0 <= j < i ==> #[trigger] recs@[j].id@ != id@,
        decreases recs.len() - i,
    {
        if str_eq(recs[i].id.as_str(), id) {
            assert(recs@[i as int].id@ == id@);
            proof {
                let j = choose|j: int| 0 <= j < recs@.len() && #[trigger] recs@[j].id@ == id@;
                if j != i {
                    assert(recs@[j].id@ != recs@[i as int].id@);
                }
            }
            return Some(i);
        }
        i = i + 1;
    }
    None
}

/// The ids of the children of the commit with id `t`.
fn children_ids_of(recs: &Vec<CommitRecord>, t: &str) -> (r: Vec<String>)
    ensures
        strings_view(r@) == children_of(recs@, t@),
{
    let mut out: Vec<String> = Vec::new();
    let mut i: usize = 0;
    while i < recs.len()
        invariant
            i <= recs.len(),
            strings_view(out@) == children_of(recs@.subrange(0, i as int), t@),
        decreases recs.len() - i,
    {
        let ps = &recs[i].parent_ids;
        let mut p: usize = 0;
        while p < ps.len()
            invariant
                i < recs.len(),
                ps == &recs@[i as int].parent_ids,
                p <= ps.len(),
                strings_view(out@) == children_of(recs@.subrange(0, i as int), t@) + id_copies(recs@[i as int].id@, ps@.subrange(0, p as int), t@),
            decreases ps.len() - p,
        {
            let ghost before = out@;
            let ghost sub = ps@.subrange(0, p + 1);
            assert(sub.drop_last() =~= ps@.subrange(0, p as int));
            assert(sub.last() == ps@[p as int]);
            if str_eq(ps[p].as_str(), t) {
                let c = recs[i].id.clone();
                out.push(c);
                assert(out@ == before.push(c));
                assert(strings_view(out@) =~= strings_view(before).push(recs@[i as int].id@));
            } else {
                assert(out@ == before);
            }
            p = p + 1;
            assert(strings_view(out@) =~= children_of(recs@.subrange(0, i as int), t@) + id_copies(recs@[i as int].id@, ps@.subrange(0, p as int), t@));
        }
        assert(ps@.subrange(0, p as int) =~= ps@);
        assert(recs@.subrange(0, i + 1).drop_last() =~= recs@.subrange(0, i as int));
        i = i + 1;
    }
    assert(recs@.subrange(0, i as int) =~= recs@);
    out
}

/// The parent ids among `ps` that name records.
fn known_parent_ids(recs: &Vec<CommitRecord>, ps: &Vec<String>) -> (r: Vec<String>)
    requires
        unique_ids(recs@),
    ensures
        strings_view(r@) == known_parents(recs@, ps@),
{
    let mut out: Vec<String> = Vec::new();
    let mut p: usize = 0;
    while p < ps.len()
        invariant
            unique_ids(recs@),
            p <= ps.len(),
            strings_view(out@) == known_parents(recs@, ps@.subrange(0, p as int)),
        decreases ps.len() - p,
    {
        let found = find_record(recs, ps[p].as_str());
        if found.is_some() {
            out.push(ps[p].clone());
        }
        assert(ps@.subrange(0, p + 1).drop_last() =~= ps@.subrange(0, p as int));
        p = p + 1;
        assert(strings_view(out@) =~= known_parents(recs@, ps@.subrange(0, p as int)));
    }
    assert(ps@.subrange(0, p as int) =~= ps@);
    out
}

/// The commit node of record `i`.
fn node_for(recs: &Vec<CommitRecord>, i: usize) -> (node: CommitNode)
    requires
        i < recs@.len(),
    ensures
        node_of_record(recs@, i as int, node),
{
    let rec = &recs[i];
    CommitNode {
        id: rec.id.clone(),
        author: rec.author.clone(),
        message: rec.message.clone(),
        time: rec.time,
        parent_ids: copy_strings(&rec.parent_ids),
        children_ids: children_ids_of(recs, rec.id.as_str()),
        branch: None,
    }
}


proof fn lemma_distinct_in_range_len(s: Seq<int>, n: int)
    requires
        0 <= n,
        s.no_duplicates(),
        forall|k: int| 0 <= k < s.len() ==> 0 <= #[trigger] s[k] < n,
    ensures
        s.len() <= n,
{
    if s.len() > 0 {
        assert(0 <= s[0] < n);
        s.unique_seq_to_set();
        vstd::set_lib::lemma_int_range(0, n);
        assert forall|x: int| s.to_set().contains(x) implies vstd::set_lib::set_int_range(0, n).contains(x) by {
            assert(s.contains(x));
            let k = choose|k: int| 0 <= k < s.len() && s[k] == x;
            assert(0 <= s[k] < n);
        }
        assert(s.to_set().subset_of(vstd::set_lib::set_int_range(0, n)));
        vstd::set_lib::lemma_len_subset(s.to_set(), vstd::set_lib::set_int_range(0, n));
    }
}

proof fn lemma_covered_prefix(a: Seq<Seq<int>>, b: Seq<Seq<int>>, upto: int)
    requires
        0 <= upto <= a.len(),
        upto <= b.len(),
        forall|t: int| 0 <= t < upto ==> a[t] == b[t],
    ensures
        covered(a, upto) == covered(b, upto),
{
    assert forall|x: int| covered(a, upto).contains(x) implies covered(b, upto).contains(x) by {
        let (t, k) = choose|t: int, k: int| 0 <= t < upto && 0 <= k < a[t].len() && #[trigger] a[t][k] == x;
        assert(b[t][k] == x);
    }
    assert forall|x: int| covered(b, upto).contains(x) implies covered(a, upto).contains(x) by {
        let (t, k) = choose|t: int, k: int| 0 <= t < upto && 0 <= k < b[t].len() && #[trigger] b[t][k] == x;
        assert(a[t][k] == x);
    }
    assert(covered(a, upto) =~= covered(b, upto));
}

/// Positions as integers.
pub open spec fn positions(v: Seq<usize>) -> Seq<int> {
    v.map_values(|x: usize| x as int)
}

/// The record positions of the first-parent walk of record `i`.
fn first_parent(recs: &Vec<CommitRecord>, i: usize) -> (r: Option<usize>)
    requires
        unique_ids(recs@),
        i < recs@.len(),
    ensures
        match r {
            Some(x) => first_parent_index(recs@, i as int) == Some(x as int) && x < recs@.len(),
            None => first_parent_index(recs@, i as int) is None,
        },
{
    if recs[i].parent_ids.len() == 0 {
        None
    } else {
        let r = find_record(recs, recs[i].parent_ids[0].as_str());
        proof {
            if let Some(x) = r {
                let j = choose|j: int| 0 <= j < recs@.len() && #[trigger] recs@[j].id@ == recs@[i as int].parent_ids@[0]@;
            }
        }
        r
    }
}

/// Splits the records into first-parent trunks: from each record not yet on a
/// trunk, in order, follow first parents until a commit without a recorded
/// first parent or one already on a trunk.
fn trunk_decomposition(recs: &Vec<CommitRecord>) -> (r: Vec<Vec<usize>>)
    requires
        unique_ids(recs@),
    ensures
        is_trunk_decomposition(recs@, r@.map_values(|v: Vec<usize>| positions(v@))),
{
    let n = recs.len();
    let mut visited: Vec<bool> = Vec::new();
    let mut j: usize = 0;
    while j < n
        invariant
            j <= n,
            visited@.len() == j,
            forall|k: int| 0 <= k < j ==> !visited@[k],
        decreases n - j,
    {
        visited.push(false);
        j = j + 1;
    }
    let mut out: Vec<Vec<usize>> = Vec::new();
    let ghost mut tr: Seq<Seq<int>> = Seq::empty();
    let mut i: usize = 0;
    while i < n
        invariant
            n == recs@.len(),
            unique_ids(recs@),
            i <= n,
            visited@.len() == n,
            tr == out@.map_values(|v: Vec<usize>| positions(v@)),
            forall|k: int| 0 <= k < n ==> (visited@[k] <==> covered(tr, tr.len() as int).contains(k)),
            forall|t: int| 0 <= t < tr.len() ==> is_trunk(recs@, tr, t),
            forall|k: int| 0 <= k < i ==> covered(tr, tr.len() as int).contains(k),
        decreases n - i,
    {
        if !visited[i] {
            let ghost before = covered(tr, tr.len() as int);
            let mut trunk: Vec<usize> = Vec::new();
            let mut cur: usize = i;
            let mut done = false;
            while !done
                invariant
                    n == recs@.len(),
                    unique_ids(recs@),
                    i < n,
                    !before.contains(i as int),
                    forall|k: int| 0 <= k < i ==> before.contains(k),
                    visited@.len() == n,
                    trunk@.len() <= n,
                    forall|k: int| 0 <= k < n ==> (visited@[k] <==> (before.contains(k) || positions(trunk@).contains(k))),
                    trunk@.len() == 0 ==> cur == i && !done,
                    trunk@.len() > 0 ==> trunk@[0] == i,
                    forall|k: int| 0 <= k < trunk@.len() - 1 ==> first_parent_index(recs@, #[trigger] positions(trunk@)[k]) == Some(positions(trunk@)[k + 1]),
                    forall|k: int| 0 <= k < trunk@.len() ==> !before.contains(#[trigger] positions(trunk@)[k]) && 0 <= positions(trunk@)[k] < n,
                    positions(trunk@).no_duplicates(),
                    !done ==> cur < n,
                    !done && trunk@.len() > 0 ==> first_parent_index(recs@, trunk@.last() as int) == Some(cur as int),
                    done ==> trunk@.len() > 0 && match first_parent_index(recs@, trunk@.last() as int) {
                        None => true,
                        Some(x) => before.contains(x) || positions(trunk@).contains(x),
                    },
                decreases n - trunk@.len(), if done { 0int } else { 1int },
            {
                if visited[cur] {
                    done = true;
                } else {
                    proof {
                        let s2 = positions(trunk@).push(cur as int);
                        assert(!positions(trunk@).contains(cur as int));
                        assert forall|a: int, b: int| 0 <= a < s2.len() && 0 <= b < s2.len() && a != b implies s2[a] != s2[b] by {
                            if a < trunk@.len() && b < trunk@.len() {
                                assert(s2[a] == positions(trunk@)[a]);
                                assert(s2[b] == positions(trunk@)[b]);
                            } else if a < trunk@.len() {
                                assert(s2[a] == positions(trunk@)[a]);
                            } else {
                                assert(s2[b] == positions(trunk@)[b]);
                            }
                        }
                        lemma_distinct_in_range_len(s2, n as int);
                    }
                    visited.set(cur, true);
                    let ghost old_trunk = positions(trunk@);
                    trunk.push(cur);
                    assert(positions(trunk@) =~= old_trunk.push(cur as int));
                    proof {
                        assert forall|k: int| 0 <= k < n implies (visited@[k] <==> (before.contains(k) || positions(trunk@).contains(k))) by {
                            if k == cur {
                                assert(positions(trunk@)[old_trunk.len() as int] == k);
                            } else {
                                if old_trunk.contains(k) {
                                    let m = choose|m: int| 0 <= m < old_trunk.len() && old_trunk[m] == k;
                                    assert(positions(trunk@)[m] == k);
                                }
                                if positions(trunk@).contains(k) {
                                    let m = choose|m: int| 0 <= m < positions(trunk@).len() && positions(trunk@)[m] == k;
                                    assert(m < old_trunk.len());
                                    assert(old_trunk[m] == k);
                                }
                            }
                        }
                    }
                    match first_parent(recs, cur) {
                        None => {
                            done = true;
                        },
                        Some(nx) => {
                            cur = nx;
                        },
                    }
                }
            }
            let ghost tr_old = tr;
            let ghost new_trunk = positions(trunk@);
            out.push(trunk);
            proof {
                tr = tr.push(new_trunk);
                assert(tr =~= out@.map_values(|v: Vec<usize>| positions(v@)));
                lemma_covered_prefix(tr, tr_old, tr_old.len() as int);
                assert forall|t: int| 0 <= t < tr_old.len() implies is_trunk(recs@, tr, t) by {
                    assert forall|t2: int| 0 <= t2 < t implies tr[t2] == tr_old[t2] by {}
                    lemma_covered_prefix(tr, tr_old, t);
                    assert(tr[t] == tr_old[t]);
                    assert(is_trunk(recs@, tr_old, t));
                }
                assert(is_trunk(recs@, tr, tr_old.len() as int));
                let all = covered(tr, tr.len() as int);
                assert forall|k: int| 0 <= k < n implies (visited@[k] <==> all.contains(k)) by {
                    if before.contains(k) {
                        let (t, m) = choose|t: int, m: int| 0 <= t < tr_old.len() && 0 <= m < tr_old[t].len() && #[trigger] tr_old[t][m] == k;
                        assert(tr[t][m] == k);
                    }
                    if new_trunk.contains(k) {
                        let m = choose|m: int| 0 <= m < new_trunk.len() && new_trunk[m] == k;
                        assert(tr[tr_old.len() as int][m] == k);
                    }
                    if all.contains(k) {
                        let (t, m) = choose|t: int, m: int| 0 <= t < tr.len() && 0 <= m < tr[t].len() && #[trigger] tr[t][m] == k;
                        if t < tr_old.len() {
                            assert(tr_old[t][m] == k);
                            assert(before.contains(k));
                        } else {
                            assert(new_trunk[m] == k);
                        }
                    }
                }
                assert forall|k: int| 0 <= k < i + 1 implies all.contains(k) by {
                    if k < i {
                        assert(before.contains(k));
                        let (t, m) = choose|t: int, m: int| 0 <= t < tr_old.len() && 0 <= m < tr_old[t].len() && #[trigger] tr_old[t][m] == k;
                        assert(tr[t] == tr_old[t]);
                        assert(tr[t][m] == k);
                    } else {
                        assert(new_trunk[0] == i);
                        assert(tr[tr_old.len() as int][0] == k);
                    }
                }
            }
        } else {
            assert(covered(tr, tr.len() as int).contains(i as int));
        }
        i = i + 1;
    }
    out
}


/// The tree of a trunk.
fn tree_for(recs: &Vec<CommitRecord>, trunk: &Vec<usize>) -> (tree: Tree)
    requires
        trunk@.len() > 0,
        forall|k: int| 0 <= k < trunk@.len() ==> #[trigger] trunk@[k] < recs@.len(),
    ensures
        tree_of_trunk(recs@, positions(trunk@), tree),
{
    let mut commits: Vec<String> = Vec::new();
    let mut k: usize = 0;
    while k < trunk.len()
        invariant
            k <= trunk@.len(),
            forall|j: int| 0 <= j < trunk@.len() ==> #[trigger] trunk@[j] < recs@.len(),
            strings_view(commits@) == positions(trunk@).subrange(0, k as int).map_values(|i: int| recs@[i].id@),
        decreases trunk.len() - k,
    {
        let c = recs[trunk[k]].id.clone();
        let ghost before = commits@;
        commits.push(c);
        assert(strings_view(commits@) =~= strings_view(before).push(c@));
        k = k + 1;
        assert(strings_view(commits@) =~= positions(trunk@).subrange(0, k as int).map_values(|i: int| recs@[i].id@));
    }
    assert(positions(trunk@).subrange(0, k as int) =~= positions(trunk@));
    let tip = trunk[0];
    let last = trunk[trunk.len() - 1];
    Tree {
        root: recs[last].id.clone(),
        tip: recs[tip].id.clone(),
        branch: String::new(),
        commits,
        author: recs[tip].author.clone(),
        commit_count: trunk.len() as u64,
    }
}

/// The trees of the trunks, in order.
fn trees_for(recs: &Vec<CommitRecord>, trunks: &Vec<Vec<usize>>) -> (trees: Vec<Tree>)
    requires
        is_trunk_decomposition(recs@, trunks@.map_values(|v: Vec<usize>| positions(v@))),
    ensures
        trees_of_trunks(recs@, trunks@.map_values(|v: Vec<usize>| positions(v@)), trees@),
{
    let ghost tr = trunks@.map_values(|v: Vec<usize>| positions(v@));
    let mut trees: Vec<Tree> = Vec::new();
    let mut t: usize = 0;
    while t < trunks.len()
        invariant
            t <= trunks@.len(),
            tr == trunks@.map_values(|v: Vec<usize>| positions(v@)),
            is_trunk_decomposition(recs@, tr),
            trees@.len() == t,
            forall|u: int| 0 <= u < t ==> tree_of_trunk(recs@, tr[u], #[trigger] trees@[u]),
        decreases trunks.len() - t,
    {
        proof {
            assert(is_trunk(recs@, tr, t as int));
            assert(tr[t as int] == positions(trunks@[t as int]@));
            assert forall|k: int| 0 <= k < trunks@[t as int]@.len() implies #[trigger] trunks@[t as int]@[k] < recs@.len() by {
                assert(tr[t as int][k] == trunks@[t as int]@[k]);
            }
        }
        let tree = tree_for(recs, &trunks[t]);
        trees.push(tree);
        t = t + 1;
    }
    trees
}

/// Whether `nodes` are the merge nodes of the records, in record order.
pub open spec fn merges_of_records(recs: Seq<CommitRecord>, nodes: Seq<MergeNode>) -> bool {
    let idx = merge_indices(recs);
    &&& nodes.len() == idx.len()
    &&& forall|t: int| 0 <= t < nodes.len() ==> merge_of_record(recs, idx[t], #[trigger] nodes[t])
}

proof fn lemma_merge_indices_prefix(recs: Seq<CommitRecord>, i: int)
    requires
        0 <= i < recs.len(),
    ensures
        merge_indices(recs.subrange(0, i + 1)) == merge_indices(recs.subrange(0, i)) + (if recs[i].parent_ids@.len() >= 2 { seq![i] } else { Seq::<int>::empty() }),
{
    assert(recs.subrange(0, i + 1).drop_last() =~= recs.subrange(0, i));
}

/// The merge nodes: one per record with two or more parents.
fn merge_nodes_for(recs: &Vec<CommitRecord>) -> (nodes: Vec<MergeNode>)
    requires
        unique_ids(recs@),
    ensures
        merges_of_records(recs@, nodes@),
{
    let mut nodes: Vec<MergeNode> = Vec::new();
    let mut i: usize = 0;
    while i < recs.len()
        invariant
            unique_ids(recs@),
            i <= recs@.len(),
            nodes@.len() == merge_indices(recs@.subrange(0, i as int)).len(),
            forall|t: int| 0 <= t < nodes@.len() ==> merge_of_record(recs@, merge_indices(recs@.subrange(0, i as int))[t], #[trigger] nodes@[t]),
        decreases recs.len() - i,
    {
        proof {
            lemma_merge_indices_prefix(recs@, i as int);
        }
        let ghost before = nodes@;
        if recs[i].parent_ids.len() >= 2 {
            let m = MergeNode {
                id: recs[i].id.clone(),
                parent_ids: known_parent_ids(recs, &recs[i].parent_ids),
                child_ids: children_ids_of(recs, recs[i].id.as_str()),
                commit: node_for(recs, i),
                degree: recs[i].parent_ids.len(),
            };
            nodes.push(m);
        }
        proof {
            let idx = merge_indices(recs@.subrange(0, i + 1));
            assert forall|t: int| 0 <= t < nodes@.len() implies merge_of_record(recs@, idx[t], #[trigger] nodes@[t]) by {
                if t < before.len() {
                    assert(nodes@[t] == before[t]);
                }
            }
        }
        i = i + 1;
    }
    assert(recs@.subrange(0, i as int) =~= recs@);
    nodes
}

/// Whether `m` maps each commit id to its node, in record order.
pub open spec fn commits_of_records(recs: Seq<CommitRecord>, m: Seq<(Seq<char>, CommitNode)>) -> bool {
    &&& m.len() == recs.len()
    &&& forall|i: int| 0 <= i < m.len() ==> (#[trigger] m[i]).0 == recs[i].id@ && node_of_record(recs, i, m[i].1)
}

/// The commit map: every commit under its id.
fn commit_map_for(recs: &Vec<CommitRecord>) -> (m: StrMap<CommitNode>)
    requires
        unique_ids(recs@),
    ensures
        commits_of_records(recs@, m@),
{
    let mut m: StrMap<CommitNode> = StrMap::new();
    let mut i: usize = 0;
    while i < recs.len()
        invariant
            unique_ids(recs@),
            i <= recs@.len(),
            m@.len() == i,
            forall|j: int| 0 <= j < i ==> (#[trigger] m@[j]).0 == recs@[j].id@ && node_of_record(recs@, j, m@[j].1),
        decreases recs.len() - i,
    {
        let ghost before = m@;
        proof {
            assert forall|j: int| 0 <= j < before.len() implies #[trigger] before[j].0 != recs@[i as int].id@ by {
                assert(before[j].0 == recs@[j].id@);
            }
            assert(!has_key(before, recs@[i as int].id@));
        }
        let node = node_for(recs, i);
        m.insert(recs[i].id.clone(), node);
        proof {
            assert(m@ == before.push((recs@[i as int].id@, node)));
            assert forall|j: int| 0 <= j < i + 1 implies (#[trigger] m@[j]).0 == recs@[j].id@ && node_of_record(recs@, j, m@[j].1) by {
                if j < i {
                    assert(m@[j] == before[j]);
                }
            }
        }
        i = i + 1;
    }
    m
}

/// Whether some record has author `a`.
pub open spec fn is_author(recs: Seq<CommitRecord>, a: Seq<char>) -> bool {
    exists|i: int| 0 <= i < recs.len() && #[trigger] recs[i].author@ == a
}

/// Whether `m` groups the commit ids by author: one key per author, the ids of
/// that author's commits in record order.
pub open spec fn authors_of_records(recs: Seq<CommitRecord>, m: Seq<(Seq<char>, Vec<String>)>) -> bool {
    &&& forall|i: int| 0 <= i < recs.len() ==> has_key(m, #[trigger] recs[i].author@)
    &&& forall|j: int| 0 <= j < m.len() ==> is_author(recs, (#[trigger] m[j]).0)
    &&& forall|j: int| 0 <= j < m.len() ==> strings_view((#[trigger] m[j]).1@) == ids_by_author(recs, m[j].0)
}

/// The ids of the commits of `author`.
fn ids_of_author(recs: &Vec<CommitRecord>, author: &str) -> (r: Vec<String>)
    ensures
        strings_view(r@) == ids_by_author(recs@, author@),
{
    let mut out: Vec<String> = Vec::new();
    let mut j: usize = 0;
    while j < recs.len()
        invariant
            j <= recs@.len(),
            strings_view(out@) == ids_by_author(recs@.subrange(0, j as int), author@),
        decreases recs.len() - j,
    {
        assert(recs@.subrange(0, j + 1).drop_last() =~= recs@.subrange(0, j as int));
        let ghost before = out@;
        if str_eq(recs[j].author.as_str(), author) {
            let c = recs[j].id.clone();
            out.push(c);
            assert(strings_view(out@) =~= strings_view(before).push(c@));
        }
        j = j + 1;
    }
    assert(recs@.subrange(0, j as int) =~= recs@);
    out
}

/// The commit ids grouped by author.
fn author_map_for(recs: &Vec<CommitRecord>) -> (m: StrMap<Vec<String>>)
    ensures
        authors_of_records(recs@, m@),
{
    let mut m: StrMap<Vec<String>> = StrMap::new();
    let mut i: usize = 0;
    while i < recs.len()
        invariant
            i <= recs@.len(),
            forall|k: int| 0 <= k < i ==> has_key(m@, #[trigger] recs@[k].author@),
            forall|j: int| 0 <= j < m@.len() ==> is_author(recs@, (#[trigger] m@[j]).0),
            forall|j: int| 0 <= j < m@.len() ==> strings_view((#[trigger] m@[j]).1@) == ids_by_author(recs@, m@[j].0),
        decreases recs.len() - i,
    {
        if !m.contains_key(recs[i].author.as_str()) {
            let ghost before = m@;
            let ids = ids_of_author(recs, recs[i].author.as_str());
            m.insert(recs[i].author.clone(), ids);
            proof {
                assert(m@ == before.push((recs@[i as int].author@, ids)));
                assert(m@[before.len() as int].0 == recs@[i as int].author@);
                assert forall|k: int| 0 <= k < i + 1 implies has_key(m@, #[trigger] recs@[k].author@) by {
                    if k < i {
                        let j = choose|j: int| 0 <= j < before.len() && #[trigger] before[j].0 == recs@[k].author@;
                        assert(m@[j] == before[j]);
                    } else {
                        assert(m@[before.len() as int].0 == recs@[k].author@);
                    }
                }
                assert forall|j: int| 0 <= j < m@.len() implies is_author(recs@, (#[trigger] m@[j]).0) by {
                    if j < before.len() {
                        assert(m@[j] == before[j]);
                    } else {
                        assert(recs@[i as int].author@ == m@[j].0);
                    }
                }
                assert forall|j: int| 0 <= j < m@.len() implies strings_view((#[trigger] m@[j]).1@) == ids_by_author(recs@, m@[j].0) by {
                    if j < before.len() {
                        assert(m@[j] == before[j]);
                    }
                }
            }
        }
        i = i + 1;
    }
    m
}

/// Whether `r` is the scan of the records: every commit in the commit map with
/// its children, the merge nodes, the first-parent trees (in the forest and
/// beside it), commit ids grouped by author, and the counts.
pub open spec fn is_scan_of(recs: Seq<CommitRecord>, r: ScanResult) -> bool {
    &&& commits_of_records(recs, r.forest.commit_map@)
    &&& merges_of_records(recs, r.forest.merge_nodes@)
    &&& authors_of_records(recs, r.forest.branch_map@)
    &&& exists|trunks: Seq<Seq<int>>| {
        &&& #[trigger] is_trunk_decomposition(recs, trunks)
        &&& trees_of_trunks(recs, trunks, r.forest.trees@)
        &&& trees_of_trunks(recs, trunks, r.trees@)
    }
    &&& r.commit_count == recs.len()
    &&& r.branch_count == r.trees@.len()
}

/// Builds the forest from the commits of a repository, given in walk order:
/// children lists, merge nodes, first-parent trees and commits by author.
pub fn build_forest(records: &Vec<CommitRecord>) -> (r: ScanResult)
    requires
        unique_ids(records@),
    ensures
        is_scan_of(records@, r),
{
    let trunks = trunk_decomposition(records);
    let trees = trees_for(records, &trunks);
    let forest_trees = trees_for(records, &trunks);
    let branch_count = trees.len();
    let forest = Forest {
        trees: forest_trees,
        merge_nodes: merge_nodes_for(records),
        commit_map: commit_map_for(records),
        branch_map: author_map_for(records),
    };
    let r = ScanResult { forest, trees, commit_count: records.len(), branch_count };
    assert(is_trunk_decomposition(records@, trunks@.map_values(|v: Vec<usize>| positions(v@))));
    r
}


proof fn lemma_id_copies_contains(id: Seq<char>, ps: Seq<String>, t: Seq<char>, c: Seq<char>)
    ensures
        id_copies(id, ps, t).contains(c) <==> (c == id && strings_view(ps).contains(t)),
    decreases ps.len(),
{
    if ps.len() > 0 {
        lemma_id_copies_contains(id, ps.drop_last(), t, c);
        let rest = id_copies(id, ps.drop_last(), t);
        let tail: Seq<Seq<char>> = if ps.last()@ == t { seq![id] } else { Seq::empty() };
        assert(id_copies(id, ps, t) == rest + tail);
        if id_copies(id, ps, t).contains(c) {
            let k = choose|k: int| 0 <= k < (rest + tail).len() && (rest + tail)[k] == c;
            if k >= rest.len() {
                assert(tail[k - rest.len()] == c);
                assert(strings_view(ps)[ps.len() - 1] == t);
            } else {
                assert(rest[k] == c);
                let m = choose|m: int| 0 <= m < strings_view(ps.drop_last()).len() && strings_view(ps.drop_last())[m] == t;
                assert(strings_view(ps)[m] == t);
            }
        }
        if c == id && strings_view(ps).contains(t) {
            let m = choose|m: int| 0 <= m < strings_view(ps).len() && strings_view(ps)[m] == t;
            if m == ps.len() - 1 {
                assert((rest + tail)[rest.len() as int] == c);
            } else {
                assert(strings_view(ps.drop_last())[m] == t);
                let k = choose|k: int| 0 <= k < rest.len() && rest[k] == c;
                assert((rest + tail)[k] == c);
            }
        }
    }
}

proof fn lemma_children_of_contains(recs: Seq<CommitRecord>, t: Seq<char>, c: Seq<char>)
    ensures
        children_of(recs, t).contains(c) <==> exists|j: int| 0 <= j < recs.len() && #[trigger] recs[j].id@ == c && strings_view(recs[j].parent_ids@).contains(t),
    decreases recs.len(),
{
    if recs.len() > 0 {
        let init = recs.drop_last();
        lemma_children_of_contains(init, t, c);
        let last = recs.last();
        lemma_id_copies_contains(last.id@, last.parent_ids@, t, c);
        let rest = children_of(init, t);
        let tail = id_copies(last.id@, last.parent_ids@, t);
        assert(children_of(recs, t) == rest + tail);
        if children_of(recs, t).contains(c) {
            let k = choose|k: int| 0 <= k < (rest + tail).len() && (rest + tail)[k] == c;
            if k >= rest.len() {
                assert(tail[k - rest.len()] == c);
                assert(recs[recs.len() - 1].id@ == c);
            } else {
                assert(rest[k] == c);
                let j = choose|j: int| 0 <= j < init.len() && #[trigger] init[j].id@ == c && strings_view(init[j].parent_ids@).contains(t);
                assert(recs[j] == init[j]);
            }
        }
        if exists|j: int| 0 <= j < recs.len() && #[trigger] recs[j].id@ == c && strings_view(recs[j].parent_ids@).contains(t) {
            let j = choose|j: int| 0 <= j < recs.len() && #[trigger] recs[j].id@ == c && strings_view(recs[j].parent_ids@).contains(t);
            if j == recs.len() - 1 {
                let k = choose|k: int| 0 <= k < tail.len() && tail[k] == c;
                assert((rest + tail)[rest.len() + k] == c);
            } else {
                assert(init[j] == recs[j]);
                let k = choose|k: int| 0 <= k < rest.len() && rest[k] == c;
                assert((rest + tail)[k] == c);
            }
        }
    }
}

/// Parents and children agree: commit `j` names commit `i` as a parent exactly
/// when `i` lists `j` among its children.
pub proof fn lemma_parent_child_symmetry(recs: Seq<CommitRecord>, r: ScanResult, i: int, j: int)
    requires
        unique_ids(recs),
        is_scan_of(recs, r),
        0 <= i < recs.len(),
        0 <= j < recs.len(),
    ensures
        strings_view(r.forest.commit_map@[j].1.parent_ids@).contains(recs[i].id@)
            <==> strings_view(r.forest.commit_map@[i].1.children_ids@).contains(recs[j].id@),
{
    lemma_children_of_contains(recs, recs[i].id@, recs[j].id@);
    assert(r.forest.commit_map@[i].0 == recs[i].id@);
    assert(r.forest.commit_map@[j].0 == recs[j].id@);
    if strings_view(r.forest.commit_map@[i].1.children_ids@).contains(recs[j].id@) {
        let j2 = choose|j2: int| 0 <= j2 < recs.len() && #[trigger] recs[j2].id@ == recs[j].id@ && strings_view(recs[j2].parent_ids@).contains(recs[i].id@);
        if j2 != j {
            assert(recs[j2].id@ != recs[j].id@);
        }
    }
}

/// Every commit stands in exactly one tree, exactly once: some tree lists it,
/// and any two places where trees list it are the same place.
pub proof fn lemma_trees_partition_commits(recs: Seq<CommitRecord>, r: ScanResult, i: int)
    requires
        unique_ids(recs),
        is_scan_of(recs, r),
        0 <= i < recs.len(),
    ensures
        exists|t: int, k: int| 0 <= t < r.trees@.len() && 0 <= k < r.trees@[t].commits@.len() && #[trigger] r.trees@[t].commits@[k]@ == recs[i].id@,
        forall|t1: int, k1: int, t2: int, k2: int|
            0 <= t1 < r.trees@.len() && 0 <= k1 < r.trees@[t1].commits@.len()
            && 0 <= t2 < r.trees@.len() && 0 <= k2 < r.trees@[t2].commits@.len()
            && #[trigger] r.trees@[t1].commits@[k1]@ == recs[i].id@
            && #[trigger] r.trees@[t2].commits@[k2]@ == recs[i].id@
            ==> t1 == t2 && k1 == k2,
{
    let trunks = choose|trunks: Seq<Seq<int>>| {
        &&& #[trigger] is_trunk_decomposition(recs, trunks)
        &&& trees_of_trunks(recs, trunks, r.forest.trees@)
        &&& trees_of_trunks(recs, trunks, r.trees@)
    };
    assert(covered(trunks, trunks.len() as int).contains(i));
    let (t, k) = choose|t: int, k: int| 0 <= t < trunks.len() && 0 <= k < trunks[t].len() && #[trigger] trunks[t][k] == i;
    assert(tree_of_trunk(recs, trunks[t], r.trees@[t]));
    assert(strings_view(r.trees@[t].commits@) == trunks[t].map_values(|x: int| recs[x].id@));
    assert(strings_view(r.trees@[t].commits@).len() == trunks[t].len());
    assert(strings_view(r.trees@[t].commits@)[k] == recs[i].id@);
    assert(r.trees@[t].commits@[k]@ == recs[i].id@);
    assert forall|t1: int, k1: int, t2: int, k2: int|
        0 <= t1 < r.trees@.len() && 0 <= k1 < r.trees@[t1].commits@.len()
        && 0 <= t2 < r.trees@.len() && 0 <= k2 < r.trees@[t2].commits@.len()
        && #[trigger] r.trees@[t1].commits@[k1]@ == recs[i].id@
        && #[trigger] r.trees@[t2].commits@[k2]@ == recs[i].id@
        implies t1 == t2 && k1 == k2 by {
        assert(tree_of_trunk(recs, trunks[t1], r.trees@[t1]));
        assert(tree_of_trunk(recs, trunks[t2], r.trees@[t2]));
        assert(strings_view(r.trees@[t1].commits@) == trunks[t1].map_values(|x: int| recs[x].id@));
        assert(strings_view(r.trees@[t2].commits@) == trunks[t2].map_values(|x: int| recs[x].id@));
        assert(strings_view(r.trees@[t1].commits@).len() == trunks[t1].len());
        assert(strings_view(r.trees@[t2].commits@).len() == trunks[t2].len());
        assert(strings_view(r.trees@[t1].commits@)[k1] == recs[trunks[t1][k1]].id@);
        assert(strings_view(r.trees@[t2].commits@)[k2] == recs[trunks[t2][k2]].id@);
        assert(recs[trunks[t1][k1]].id@ == recs[i].id@);
        assert(recs[trunks[t2][k2]].id@ == recs[i].id@);
        assert(is_trunk(recs, trunks, t1));
        assert(is_trunk(recs, trunks, t2));
        let a = trunks[t1][k1];
        let b = trunks[t2][k2];
        assert(a == i);
        assert(b == i);
        if t1 < t2 {
            assert(covered(trunks, t2).contains(a));
        } else if t2 < t1 {
            assert(covered(trunks, t1).contains(b));
        } else {
            assert(trunks[t1].no_duplicates());
        }
    }
}

} // verus!
