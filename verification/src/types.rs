//! The forest model: commits, trees (long-lived branches), merge nodes and the
//! forest that holds them.

use vstd::prelude::*;
use crate::strmap::StrMap;

verus! {

/// A single commit in the git history.
#[derive(Debug, Clone)]
pub struct CommitNode {
    pub id: String,
    pub author: String,
    pub message: String,
    /// Commit time, seconds since the epoch.
    pub time: i64,
    pub parent_ids: Vec<String>,
    pub children_ids: Vec<String>,
    pub branch: Option<String>,
}

/// A tree (long-lived branch) in the forest.
#[derive(Debug, Clone)]
pub struct Tree {
    pub root: String,
    pub tip: String,
    pub branch: String,
    pub commits: Vec<String>,
    pub author: String,
    pub commit_count: u64,
}

/// A merge node where two or more branches join.
#[derive(Debug, Clone)]
pub struct MergeNode {
    pub id: String,
    pub parent_ids: Vec<String>,
    pub child_ids: Vec<String>,
    pub commit: CommitNode,
    pub degree: usize,
}

/// The whole forest built from a repository.
#[derive(Debug)]
pub struct Forest {
    pub trees: Vec<Tree>,
    pub merge_nodes: Vec<MergeNode>,
    /// Commits by id.
    pub commit_map: StrMap<CommitNode>,
    /// Commit ids grouped by a branch key.
    pub branch_map: StrMap<Vec<String>>,
}

/// The views of a vector of strings.
pub open spec fn strings_view(v: Seq<String>) -> Seq<Seq<char>> {
    v.map_values(|s: String| s@)
}

impl Forest {
    /// Whether the forest holds nothing at all.
    pub open spec fn is_empty_forest(&self) -> bool {
        &&& self.trees@.len() == 0
        &&& self.merge_nodes@.len() == 0
        &&& self.commit_map@.len() == 0
        &&& self.branch_map@.len() == 0
    }

    /// An empty forest.
    pub fn new() -> (f: Self)
        ensures
            f.is_empty_forest(),
    {
        Forest {
            trees: Vec::new(),
            merge_nodes: Vec::new(),
            commit_map: StrMap::new(),
            branch_map: StrMap::new(),
        }
    }
}

impl Default for Forest {
    fn default() -> (f: Self)
        ensures
            f.is_empty_forest(),
    {
        Self::new()
    }
}


/// A copy of a vector of strings.
pub fn copy_strings(v: &Vec<String>) -> (r: Vec<String>)
    ensures
        strings_view(r@) == strings_view(v@),
{
    let mut r: Vec<String> = Vec::new();
    let mut i: usize = 0;
    while i < v.len()
        invariant
            i <= v.len(),
            strings_view(r@) == strings_view(v@).subrange(0, i as int),
        decreases v.len() - i,
    {
        let c = v[i].clone();
        let ghost before = r@;
        r.push(c);
        assert(strings_view(r@) =~= strings_view(before).push(c@));
        i = i + 1;
        assert(strings_view(r@) =~= strings_view(v@).subrange(0, i as int));
    }
    assert(strings_view(v@).subrange(0, i as int) =~= strings_view(v@));
    r
}

/// Two commit nodes hold the same values.
pub open spec fn same_commit(a: CommitNode, b: CommitNode) -> bool {
    &&& a.id@ == b.id@
    &&& a.author@ == b.author@
    &&& a.message@ == b.message@
    &&& a.time == b.time
    &&& strings_view(a.parent_ids@) == strings_view(b.parent_ids@)
    &&& strings_view(a.children_ids@) == strings_view(b.children_ids@)
    &&& match (a.branch, b.branch) {
        (Some(x), Some(y)) => x@ == y@,
        (None, None) => true,
        _ => false,
    }
}

impl CommitNode {
    /// A copy of this node.
    pub fn duplicate(&self) -> (r: Self)
        ensures
            same_commit(r, *self),
    {
        CommitNode {
            id: self.id.clone(),
            author: self.author.clone(),
            message: self.message.clone(),
            time: self.time,
            parent_ids: copy_strings(&self.parent_ids),
            children_ids: copy_strings(&self.children_ids),
            branch: match &self.branch {
                Some(b) => Some(b.clone()),
                None => None,
            },
        }
    }
}

} // verus!
