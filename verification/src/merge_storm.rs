//! Merge storms: hours of history in which many merge commits land close
//! together. Merges are taken oldest first; a window of one hour opens at a
//! merge, and when it holds at least three merges they form a storm and the
//! search goes on after them. Intensity grows with the number of merges and of
//! distinct parent commits, each counted up to ten.

use vstd::prelude::*;
use crate::order::{is_key_order, key_before, keys_sorted, lemma_sorted_keys_keep_order, reorder, stable_key_order};
use crate::strmap::lookup;
use crate::text::str_eq;
use crate::types::{Forest, MergeNode, copy_strings, strings_view};

verus! {

/// Length of the time window of a storm, in seconds.
pub const STORM_WINDOW: i64 = 3600;

/// Fewest merges in a window that make a storm.
pub const MIN_STORM_MERGES: usize = 3;

/// A detected merge storm.
#[derive(Debug)]
pub struct MergeStorm {
    /// The window: time of the first merge, and one hour later.
    pub time_range: (i64, i64),
    /// The merge commits of the storm, oldest first.
    pub merges: Vec<String>,
    /// Number of distinct parent commits of those merges.
    pub branch_count: usize,
    /// Intensity in hundredths, from 0 to 100.
    pub intensity: u32,
}

/// A storm as the contracts see it: start, end, merge ids, branch count and
/// intensity in hundredths.
pub type StormView = (int, int, Seq<Seq<char>>, nat, nat);

/// The view of a storm.
pub open spec fn storm_view(s: MergeStorm) -> StormView {
    (s.time_range.0 as int, s.time_range.1 as int, strings_view(s.merges@), s.branch_count as nat, s.intensity as nat)
}

/// The views of a sequence of storms.
pub open spec fn storm_views(s: Seq<MergeStorm>) -> Seq<StormView> {
    s.map_values(|m: MergeStorm| storm_view(m))
}

/// The merges among the first `n` merge nodes whose commit is known, with the
/// commit's time, in merge-node order.
pub open spec fn merge_events(forest: &Forest, n: nat) -> Seq<(i64, Seq<char>)>
    decreases n,
{
    if n == 0 {
        Seq::empty()
    } else {
        let m = forest.merge_nodes@[n - 1];
        merge_events(forest, (n - 1) as nat) + match lookup(forest.commit_map@, m.id@) {
            Some(c) => seq![(c.time, m.id@)],
            None => Seq::empty(),
        }
    }
}

/// All merges of the forest whose commit is known.
pub open spec fn all_merge_events(forest: &Forest) -> Seq<(i64, Seq<char>)> {
    merge_events(forest, forest.merge_nodes@.len() as nat)
}

/// The times of a sequence of events.
pub open spec fn event_times(ev: Seq<(i64, Seq<char>)>) -> Seq<i64> {
    ev.map_values(|e: (i64, Seq<char>)| e.0)
}

/// Number of events from position `j` on, one after another, whose time is at
/// most `end`.
pub open spec fn window_len(ev: Seq<(i64, Seq<char>)>, end: int, j: int) -> nat
    decreases ev.len() - j,
{
    if 0 <= j < ev.len() && ev[j].0 <= end {
        1 + window_len(ev, end, j + 1)
    } else {
        0
    }
}

/// The parent ids of the first merge node, from position `j` on, whose id is `id`
/// (none when there is no such node).
pub open spec fn merge_parents(nodes: Seq<MergeNode>, id: Seq<char>, j: int) -> Seq<Seq<char>>
    decreases nodes.len() - j,
{
    if j < 0 || j >= nodes.len() {
        Seq::empty()
    } else if nodes[j].id@ == id {
        strings_view(nodes[j].parent_ids@)
    } else {
        merge_parents(nodes, id, j + 1)
    }
}

/// The parent ids of the merges `ids`, one merge after another.
pub open spec fn window_parents(nodes: Seq<MergeNode>, ids: Seq<Seq<char>>) -> Seq<Seq<char>>
    decreases ids.len(),
{
    if ids.len() == 0 {
        Seq::empty()
    } else {
        window_parents(nodes, ids.drop_last()) + merge_parents(nodes, ids.last(), 0)
    }
}

/// A count held to at most ten.
pub open spec fn cap10(n: nat) -> nat {
    if n < 10 { n } else { 10 }
}

/// The storm of the `c` events from position `i` on.
pub open spec fn storm_at(nodes: Seq<MergeNode>, ev: Seq<(i64, Seq<char>)>, i: int, c: nat) -> StormView {
    let ids = ev.subrange(i, i + c).map_values(|e: (i64, Seq<char>)| e.1);
    let bc = window_parents(nodes, ids).to_set().len();
    (ev[i].0 as int, ev[i].0 + STORM_WINDOW, ids, bc, cap10(c) * cap10(bc))
}

/// A window never runs past the last event.
pub proof fn lemma_window_len_bound(ev: Seq<(i64, Seq<char>)>, end: int, j: int)
    requires
        0 <= j <= ev.len(),
    ensures
        j + window_len(ev, end, j) <= ev.len(),
    decreases ev.len() - j,
{
    if j < ev.len() && ev[j].0 <= end {
        lemma_window_len_bound(ev, end, j + 1);
    }
}

/// The storms found in the time-sorted events from position `i` on.
pub open spec fn storms_from(nodes: Seq<MergeNode>, ev: Seq<(i64, Seq<char>)>, i: nat) -> Seq<StormView>
    decreases ev.len() - i,
{
    if i >= ev.len() {
        Seq::empty()
    } else {
        let c = window_len(ev, ev[i as int].0 + STORM_WINDOW, i as int);
        proof {
            lemma_window_len_bound(ev, ev[i as int].0 + STORM_WINDOW, i as int);
        }
        if c >= MIN_STORM_MERGES {
            seq![storm_at(nodes, ev, i as int, c)] + storms_from(nodes, ev, i + c)
        } else {
            storms_from(nodes, ev, i + 1)
        }
    }
}

/// Collects the merges whose commit is known, with their times, in merge-node order.
fn collect_merge_events(forest: &Forest) -> (r: (Vec<i64>, Vec<String>))
    ensures
        r.0@.len() == r.1@.len(),
        r.0@ == event_times(all_merge_events(forest)),
        strings_view(r.1@) == all_merge_events(forest).map_values(|e: (i64, Seq<char>)| e.1),
{
    let mut times: Vec<i64> = Vec::new();
    let mut ids: Vec<String> = Vec::new();
    let mut k: usize = 0;
    while k < forest.merge_nodes.len()
        invariant
            k <= forest.merge_nodes@.len(),
            times@.len() == ids@.len(),
            times@ == event_times(merge_events(forest, k as nat)),
            strings_view(ids@) == merge_events(forest, k as nat).map_values(|e: (i64, Seq<char>)| e.1),
        decreases forest.merge_nodes.len() - k,
    {
        let node = &forest.merge_nodes[k];
        let ghost before = merge_events(forest, k as nat);
        match forest.commit_map.get(node.id.as_str()) {
            Some(c) => {
                let ghost ids_before = ids@;
                times.push(c.time);
                let id = node.id.clone();
                ids.push(id);
                assert(strings_view(ids@) =~= strings_view(ids_before).push(node.id@));
                assert(merge_events(forest, (k + 1) as nat) =~= before.push((c.time, node.id@)));
            },
            None => {
                assert(merge_events(forest, (k + 1) as nat) =~= before);
            },
        }
        k = k + 1;
        assert(times@ =~= event_times(merge_events(forest, k as nat)));
        assert(strings_view(ids@) =~= merge_events(forest, k as nat).map_values(|e: (i64, Seq<char>)| e.1));
    }
    (times, ids)
}

/// An element is in a sequence with one more element pushed exactly when it
/// was there before or is the pushed one.
proof fn lemma_push_contains(s: Seq<Seq<char>>, a: Seq<char>, x: Seq<char>)
    ensures
        s.push(a).contains(x) <==> (s.contains(x) || x == a),
{
    if s.contains(x) {
        let i = choose|i: int| 0 <= i < s.len() && s[i] == x;
        assert(s.push(a)[i] == x);
    }
    if x == a {
        assert(s.push(a)[s.len() as int] == x);
    }
    if s.push(a).contains(x) {
        let i = choose|i: int| 0 <= i < s.push(a).len() && s.push(a)[i] == x;
        if i < s.len() {
            assert(s[i] == x);
        }
    }
}

/// The position of the first merge node whose id is `id`.
fn find_merge(nodes: &Vec<MergeNode>, id: &str) -> (r: Option<usize>)
    ensures
        match r {
            Some(j) => j < nodes@.len() && merge_parents(nodes@, id@, 0) == strings_view(nodes@[j as int].parent_ids@),
            None => merge_parents(nodes@, id@, 0) == Seq::<Seq<char>>::empty(),
        },
{
    let mut j: usize = 0;
    while j < nodes.len()
        invariant
            j <= nodes@.len(),
            merge_parents(nodes@, id@, 0) == merge_parents(nodes@, id@, j as int),
        decreases nodes.len() - j,
    {
        if str_eq(nodes[j].id.as_str(), id) {
            return Some(j);
        }
        j = j + 1;
    }
    None
}

/// Whether `v` holds a string equal to `s`.
fn contains_str(v: &Vec<String>, s: &str) -> (r: bool)
    ensures
        r == strings_view(v@).contains(s@),
{
    let mut k: usize = 0;
    while k < v.len()
        invariant
            k <= v@.len(),
            forall|j: int| 0 <= j < k ==> v@[j]@ != s@,
        decreases v.len() - k,
    {
        if str_eq(v[k].as_str(), s) {
            assert(strings_view(v@)[k as int] == s@);
            return true;
        }
        k = k + 1;
    }
    assert forall|j: int| 0 <= j < strings_view(v@).len() implies strings_view(v@)[j] != s@ by {
        assert(strings_view(v@)[j] == v@[j]@);
    }
    false
}

/// The number of distinct parent ids of the merges `ids[lo..hi]`.
fn window_branch_count(nodes: &Vec<MergeNode>, ids: &Vec<String>, lo: usize, hi: usize) -> (r: usize)
    requires
        lo <= hi <= ids@.len(),
    ensures
        r == window_parents(nodes@, strings_view(ids@).subrange(lo as int, hi as int)).to_set().len(),
{
    let mut seen: Vec<String> = Vec::new();
    let mut m: usize = lo;
    while m < hi
        invariant
            lo <= m <= hi <= ids@.len(),
            strings_view(seen@).no_duplicates(),
            forall|x: Seq<char>| strings_view(seen@).contains(x) <==> window_parents(nodes@, strings_view(ids@).subrange(lo as int, m as int)).contains(x),
        decreases hi - m,
    {
        let ghost done = window_parents(nodes@, strings_view(ids@).subrange(lo as int, m as int));
        let ghost w = strings_view(ids@).subrange(lo as int, (m + 1) as int);
        assert(w.drop_last() =~= strings_view(ids@).subrange(lo as int, m as int));
        assert(w.last() == ids@[m as int]@);
        let ghost parents = merge_parents(nodes@, ids@[m as int]@, 0);
        assert(window_parents(nodes@, w) == done + parents);
        match find_merge(nodes, ids[m].as_str()) {
            Some(j) => {
                let ps = &nodes[j].parent_ids;
                let mut p: usize = 0;
                while p < ps.len()
                    invariant
                        p <= ps@.len(),
                        parents == strings_view(ps@),
                        strings_view(seen@).no_duplicates(),
                        forall|x: Seq<char>| strings_view(seen@).contains(x) <==> (done + parents.subrange(0, p as int)).contains(x),
                    decreases ps.len() - p,
                {
                    let ghost before = seen@;
                    assert((done + parents.subrange(0, (p + 1) as int)) =~= (done + parents.subrange(0, p as int)).push(ps@[p as int]@));
                    let ghost e = ps@[p as int]@;
                    let ghost grown = (done + parents.subrange(0, p as int)).push(e);
                    if !contains_str(&seen, ps[p].as_str()) {
                        seen.push(ps[p].clone());
                        assert(strings_view(seen@) =~= strings_view(before).push(e));
                        assert forall|x: Seq<char>| strings_view(seen@).contains(x) <==> grown.contains(x) by {
                            lemma_push_contains(strings_view(before), e, x);
                            lemma_push_contains(done + parents.subrange(0, p as int), e, x);
                        }
                        assert(strings_view(seen@).no_duplicates()) by {
                            assert forall|a: int, b: int| 0 <= a < b < strings_view(seen@).len() implies strings_view(seen@)[a] != strings_view(seen@)[b] by {
                                if b == strings_view(seen@).len() - 1 {
                                    assert(strings_view(before).contains(strings_view(before)[a]));
                                }
                            }
                        }
                    } else {
                        assert forall|x: Seq<char>| strings_view(seen@).contains(x) <==> grown.contains(x) by {
                            lemma_push_contains(done + parents.subrange(0, p as int), e, x);
                        }
                    }
                    p = p + 1;
                }
                assert(parents.subrange(0, ps@.len() as int) =~= parents);
            },
            None => {
                assert(done + parents =~= done);
            },
        }
        m = m + 1;
    }
    proof {
        let all = window_parents(nodes@, strings_view(ids@).subrange(lo as int, hi as int));
        assert(strings_view(seen@).to_set() =~= all.to_set());
        strings_view(seen@).unique_seq_to_set();
    }
    seen.len()
}

impl MergeStorm {
    /// A copy of this storm.
    pub fn duplicate(&self) -> (r: Self)
        ensures
            storm_view(r) == storm_view(*self),
    {
        MergeStorm {
            time_range: self.time_range,
            merges: copy_strings(&self.merges),
            branch_count: self.branch_count,
            intensity: self.intensity,
        }
    }
}

/// The ids of `a`, then those of `b` that are not there yet, in order.
pub open spec fn append_new(a: Seq<Seq<char>>, b: Seq<Seq<char>>) -> Seq<Seq<char>>
    decreases b.len(),
{
    if b.len() == 0 {
        a
    } else {
        let r = append_new(a, b.drop_last());
        if r.contains(b.last()) { r } else { r.push(b.last()) }
    }
}

/// Storm `a` widened by an overlapping storm `b`: the later end, the merges of
/// both, and the larger branch count and intensity.
pub open spec fn combine_storms(a: StormView, b: StormView) -> StormView {
    (
        a.0,
        if b.1 > a.1 { b.1 } else { a.1 },
        append_new(a.2, b.2),
        if b.3 > a.3 { b.3 } else { a.3 },
        if b.4 > a.4 { b.4 } else { a.4 },
    )
}

/// The first `n` storms of `s` with each storm that starts before the previous
/// one ends folded into it.
pub open spec fn merge_run(s: Seq<StormView>, n: nat) -> Seq<StormView>
    decreases n,
{
    if n == 0 {
        Seq::empty()
    } else if n == 1 {
        seq![s[0]]
    } else {
        let m = merge_run(s, (n - 1) as nat);
        let cur = m.last();
        if s[n - 1].0 <= cur.1 {
            m.drop_last().push(combine_storms(cur, s[n - 1]))
        } else {
            m.push(s[n - 1])
        }
    }
}

/// The start times of a sequence of storms.
pub open spec fn storm_starts(s: Seq<MergeStorm>) -> Seq<i64> {
    s.map_values(|m: MergeStorm| m.time_range.0)
}

/// Sorts the storms by start time (stably) and folds each storm that starts
/// before the previous one ends into it.
pub fn merge_overlapping_storms(storms: &mut Vec<MergeStorm>)
    ensures
        exists|perm: Seq<int>| {
            &&& #[trigger] is_key_order(storm_starts(old(storms)@), perm)
            &&& storm_views(final(storms)@) == merge_run(reorder(storm_views(old(storms)@), perm), perm.len())
        },
{
    let n = storms.len();
    let mut starts: Vec<i64> = Vec::new();
    let mut i: usize = 0;
    while i < n
        invariant
            n == storms@.len(),
            i <= n,
            starts@ == storm_starts(storms@).subrange(0, i as int),
        decreases n - i,
    {
        starts.push(storms[i].time_range.0);
        i = i + 1;
        assert(starts@ =~= storm_starts(storms@).subrange(0, i as int));
    }
    assert(starts@ =~= storm_starts(storms@));
    let order = stable_key_order(&starts);
    let ghost perm = order@.map_values(|x: usize| x as int);
    let ghost sorted = reorder(storm_views(storms@), perm);
    if n == 0 {
        assert(storm_views(storms@) =~= merge_run(sorted, 0));
        return;
    }
    assert(perm[0] == order@[0] as int);
    let mut merged: Vec<MergeStorm> = Vec::new();
    let mut current = storms[order[0]].duplicate();
    assert(storm_views(merged@).push(storm_view(current)) =~= merge_run(sorted, 1));
    let mut k: usize = 1;
    while k < n
        invariant
            n == storms@.len(),
            n == order@.len(),
            perm == order@.map_values(|x: usize| x as int),
            is_key_order(storm_starts(storms@), perm),
            sorted == reorder(storm_views(storms@), perm),
            1 <= k <= n,
            storm_views(merged@).push(storm_view(current)) == merge_run(sorted, k as nat),
        decreases n - k,
    {
        assert(perm[k as int] == order@[k as int] as int);
        let st = &storms[order[k]];
        let ghost prev = merge_run(sorted, k as nat);
        assert(sorted[k as int] == storm_view(*st));
        if st.time_range.0 <= current.time_range.1 {
            let ghost cur = storm_view(current);
            if st.time_range.1 > current.time_range.1 {
                current.time_range = (current.time_range.0, st.time_range.1);
            }
            let ghost range = current.time_range;
            let ghost bc0 = current.branch_count;
            let ghost in0 = current.intensity;
            assert(range.1 as int == (if sorted[k as int].1 > cur.1 { sorted[k as int].1 } else { cur.1 }));
            let mut q: usize = 0;
            while q < st.merges.len()
                invariant
                    q <= st.merges@.len(),
                    current.time_range == range,
                    current.branch_count == bc0,
                    current.intensity == in0,
                    strings_view(current.merges@) == append_new(cur.2, strings_view(st.merges@).subrange(0, q as int)),
                decreases st.merges.len() - q,
            {
                let ghost b = strings_view(st.merges@).subrange(0, (q + 1) as int);
                assert(b.drop_last() =~= strings_view(st.merges@).subrange(0, q as int));
                let ghost before = current.merges@;
                if !contains_str(&current.merges, st.merges[q].as_str()) {
                    current.merges.push(st.merges[q].clone());
                    assert(strings_view(current.merges@) =~= strings_view(before).push(st.merges@[q as int]@));
                }
                q = q + 1;
            }
            assert(strings_view(st.merges@).subrange(0, st.merges@.len() as int) =~= strings_view(st.merges@));
            if st.branch_count > current.branch_count {
                current.branch_count = st.branch_count;
            }
            if st.intensity > current.intensity {
                current.intensity = st.intensity;
            }
            assert(storm_view(current) == combine_storms(cur, sorted[k as int]));
            assert(storm_views(merged@).push(storm_view(current)) =~= prev.drop_last().push(combine_storms(cur, sorted[k as int])));
        } else {
            let ghost m0 = merged@;
            merged.push(current);
            current = st.duplicate();
            assert(storm_views(merged@) =~= storm_views(m0).push(prev.last()));
            assert(storm_views(merged@).push(storm_view(current)) =~= prev.push(sorted[k as int]));
        }
        k = k + 1;
    }
    merged.push(current);
    *storms = merged;
}

/// Every event in a window is at most `end`, and the event right after it,
/// if any, is later than `end`.
proof fn lemma_window_stop(ev: Seq<(i64, Seq<char>)>, end: int, j: int)
    requires
        0 <= j <= ev.len(),
    ensures
        j + window_len(ev, end, j) < ev.len() ==> ev[j + window_len(ev, end, j)].0 > end,
        forall|k: int| j <= k < j + window_len(ev, end, j) ==> ev[k].0 <= end,
    decreases ev.len() - j,
{
    if j < ev.len() && ev[j].0 <= end {
        lemma_window_stop(ev, end, j + 1);
    }
}

/// What holds of every storm found in time-sorted events: it holds at least
/// three merges, its window is one hour long, its intensity is at most 100, it
/// starts no earlier than the first event looked at, and each storm ends
/// before any later storm starts.
proof fn lemma_storms_from_facts(nodes: Seq<MergeNode>, ev: Seq<(i64, Seq<char>)>, i: nat)
    requires
        keys_sorted(event_times(ev)),
        i <= ev.len(),
    ensures
        forall|k: int| 0 <= k < storms_from(nodes, ev, i).len() ==> {
            &&& (#[trigger] storms_from(nodes, ev, i)[k]).2.len() >= MIN_STORM_MERGES
            &&& storms_from(nodes, ev, i)[k].1 == storms_from(nodes, ev, i)[k].0 + STORM_WINDOW
            &&& storms_from(nodes, ev, i)[k].4 <= 100
            &&& storms_from(nodes, ev, i)[k].4 == cap10(storms_from(nodes, ev, i)[k].2.len()) * cap10(storms_from(nodes, ev, i)[k].3)
            &&& (i < ev.len() ==> storms_from(nodes, ev, i)[k].0 >= ev[i as int].0)
        },
        forall|a: int, b: int| 0 <= a < b < storms_from(nodes, ev, i).len() ==> (#[trigger] storms_from(nodes, ev, i)[a]).1 < (#[trigger] storms_from(nodes, ev, i)[b]).0,
    decreases ev.len() - i,
{
    if i < ev.len() {
        let end = ev[i as int].0 + STORM_WINDOW;
        let c = window_len(ev, end, i as int);
        lemma_window_len_bound(ev, end, i as int);
        lemma_window_stop(ev, end, i as int);
        let all = storms_from(nodes, ev, i);
        if c >= MIN_STORM_MERGES {
            let rest = storms_from(nodes, ev, i + c);
            lemma_storms_from_facts(nodes, ev, i + c);
            let first = storm_at(nodes, ev, i as int, c);
            assert(all == seq![first] + rest);
            let bc = window_parents(nodes, ev.subrange(i as int, (i + c) as int).map_values(|e: (i64, Seq<char>)| e.1)).to_set().len();
            assert(cap10(c) * cap10(bc) <= 100) by (nonlinear_arith)
                requires
                    cap10(c) <= 10,
                    cap10(bc) <= 10,
            ;
            if i + c < ev.len() {
                assert(event_times(ev)[i as int] <= event_times(ev)[(i + c) as int]);
                assert(ev[(i + c) as int].0 > end);
            }
            assert forall|k: int| 0 <= k < all.len() implies {
                &&& (#[trigger] all[k]).2.len() >= MIN_STORM_MERGES
                &&& all[k].1 == all[k].0 + STORM_WINDOW
                &&& all[k].4 <= 100
                &&& all[k].4 == cap10(all[k].2.len()) * cap10(all[k].3)
                &&& all[k].0 >= ev[i as int].0
            } by {
                if k > 0 {
                    assert(all[k] == rest[k - 1]);
                }
            }
            assert forall|a: int, b: int| 0 <= a < b < all.len() implies (#[trigger] all[a]).1 < (#[trigger] all[b]).0 by {
                assert(all[b] == rest[b - 1]);
                if a > 0 {
                    assert(all[a] == rest[a - 1]);
                } else {
                    assert(rest[b - 1].0 >= ev[(i + c) as int].0);
                }
            }
        } else {
            lemma_storms_from_facts(nodes, ev, i + 1);
            assert(all == storms_from(nodes, ev, i + 1));
            if i + 1 < ev.len() {
                assert(event_times(ev)[i as int] <= event_times(ev)[(i + 1) as int]);
            }
        }
    }
}

/// Folding overlapping storms leaves storms that each end before the next
/// starts as they are.
pub proof fn lemma_separated_storms_stay_apart(s: Seq<StormView>, n: nat)
    requires
        n <= s.len(),
        forall|a: int, b: int| 0 <= a < b < s.len() ==> (#[trigger] s[a]).1 < (#[trigger] s[b]).0,
    ensures
        merge_run(s, n) == s.subrange(0, n as int),
    decreases n,
{
    if n == 1 {
        assert(merge_run(s, n) =~= s.subrange(0, 1));
    } else if n > 1 {
        lemma_separated_storms_stay_apart(s, (n - 1) as nat);
        assert(s[n - 2].1 < s[n - 1].0);
        assert(merge_run(s, n) =~= s.subrange(0, n as int));
    }
}

/// Finds the merge storms of a forest: the merges whose commit is known, oldest
/// first (merges of the same time in merge-node order), are scanned with a
/// one-hour window opened at each merge in turn; a window holding at least
/// three merges is a storm, and the scan goes on after its last merge.
pub fn detect_merge_storms(forest: &Forest) -> (storms: Vec<MergeStorm>)
    requires
        forall|k: int| 0 <= k < all_merge_events(forest).len() ==> #[trigger] all_merge_events(forest)[k].0 <= i64::MAX - STORM_WINDOW,
    ensures
        exists|perm: Seq<int>| {
            &&& #[trigger] is_key_order(event_times(all_merge_events(forest)), perm)
            &&& storm_views(storms@) == storms_from(forest.merge_nodes@, reorder(all_merge_events(forest), perm), 0)
        },
        forall|k: int| 0 <= k < storms@.len() ==> {
            &&& (#[trigger] storms@[k]).merges@.len() >= MIN_STORM_MERGES
            &&& storms@[k].time_range.1 == storms@[k].time_range.0 + STORM_WINDOW
            &&& storms@[k].intensity <= 100
            &&& storms@[k].intensity == (if storms@[k].merges@.len() < 10 { storms@[k].merges@.len() as int } else { 10 })
                * (if storms@[k].branch_count < 10 { storms@[k].branch_count as int } else { 10 })
        },
        forall|a: int, b: int| 0 <= a < b < storms@.len() ==> (#[trigger] storms@[a]).time_range.1 < (#[trigger] storms@[b]).time_range.0,
{
    let (times, ids) = collect_merge_events(forest);
    let ghost evs = all_merge_events(forest);
    let n = times.len();
    let order = stable_key_order(&times);
    let ghost perm = order@.map_values(|x: usize| x as int);
    let ghost ev = reorder(evs, perm);
    let mut st: Vec<i64> = Vec::new();
    let mut sid: Vec<String> = Vec::new();
    let mut k: usize = 0;
    while k < n
        invariant
            n == times@.len(),
            n == ids@.len(),
            n == evs.len(),
            times@ == event_times(evs),
            strings_view(ids@) == evs.map_values(|e: (i64, Seq<char>)| e.1),
            perm == order@.map_values(|x: usize| x as int),
            is_key_order(event_times(evs), perm),
            ev == reorder(evs, perm),
            k <= n,
            st@ == event_times(ev).subrange(0, k as int),
            strings_view(sid@) == ev.map_values(|e: (i64, Seq<char>)| e.1).subrange(0, k as int),
        decreases n - k,
    {
        assert(perm[k as int] == order@[k as int] as int);
        let p = order[k];
        st.push(times[p]);
        let ghost before = sid@;
        sid.push(ids[p].clone());
        assert(strings_view(sid@) =~= strings_view(before).push(ids@[p as int]@));
        assert(strings_view(ids@)[p as int] == ids@[p as int]@);
        assert(ev[k as int] == evs[perm[k as int]]);
        k = k + 1;
        assert(st@ =~= event_times(ev).subrange(0, k as int));
        assert(strings_view(sid@) =~= ev.map_values(|e: (i64, Seq<char>)| e.1).subrange(0, k as int));
    }
    assert(st@ =~= event_times(ev));
    assert(strings_view(sid@) =~= ev.map_values(|e: (i64, Seq<char>)| e.1));
    proof {
        assert forall|a: int, b: int| 0 <= a <= b < ev.len() implies event_times(ev)[a] <= event_times(ev)[b] by {
            if a < b {
                assert(key_before(event_times(evs), perm[a], perm[b]));
            }
        }
        assert forall|q: int| 0 <= q < ev.len() implies ev[q].0 <= i64::MAX - STORM_WINDOW by {
            assert(ev[q] == evs[perm[q]]);
        }
    }
    let ghost nodes = forest.merge_nodes@;
    let mut storms: Vec<MergeStorm> = Vec::new();
    let mut i: usize = 0;
    while i < n
        invariant
            n == st@.len(),
            n == sid@.len(),
            n == ev.len(),
            nodes == forest.merge_nodes@,
            st@ == event_times(ev),
            strings_view(sid@) == ev.map_values(|e: (i64, Seq<char>)| e.1),
            forall|q: int| 0 <= q < ev.len() ==> ev[q].0 <= i64::MAX - STORM_WINDOW,
            i <= n,
            storm_views(storms@) + storms_from(nodes, ev, i as nat) == storms_from(nodes, ev, 0),
        decreases n - i,
    {
        let start = st[i];
        let end = start + STORM_WINDOW;
        let mut j: usize = i;
        while j < n && st[j] <= end
            invariant
                n == st@.len(),
                n == ev.len(),
                st@ == event_times(ev),
                i <= j <= n,
                end == ev[i as int].0 + STORM_WINDOW,
                window_len(ev, end as int, i as int) == (j - i) + window_len(ev, end as int, j as int),
            decreases n - j,
        {
            j = j + 1;
        }
        let c = j - i;
        assert(window_len(ev, end as int, i as int) == c);
        if c >= MIN_STORM_MERGES {
            let mut merges: Vec<String> = Vec::new();
            let mut q: usize = i;
            while q < j
                invariant
                    i <= q <= j <= n,
                    n == sid@.len(),
                    strings_view(merges@) == strings_view(sid@).subrange(i as int, q as int),
                decreases j - q,
            {
                let ghost before = merges@;
                merges.push(sid[q].clone());
                assert(strings_view(merges@) =~= strings_view(before).push(sid@[q as int]@));
                q = q + 1;
                assert(strings_view(merges@) =~= strings_view(sid@).subrange(i as int, q as int));
            }
            let bc = window_branch_count(&forest.merge_nodes, &sid, i, j);
            let cc: u32 = if c < 10 { c as u32 } else { 10 };
            let bb: u32 = if bc < 10 { bc as u32 } else { 10 };
            assert(cc * bb <= 100) by (nonlinear_arith)
                requires
                    cc <= 10,
                    bb <= 10,
            ;
            let storm = MergeStorm { time_range: (start, end), merges, branch_count: bc, intensity: cc * bb };
            proof {
                let ids_w = ev.subrange(i as int, j as int).map_values(|e: (i64, Seq<char>)| e.1);
                assert(ids_w =~= strings_view(sid@).subrange(i as int, j as int));
                assert(storm_view(storm) == storm_at(nodes, ev, i as int, c as nat));
                assert(storms_from(nodes, ev, i as nat) == seq![storm_at(nodes, ev, i as int, c as nat)] + storms_from(nodes, ev, j as nat));
            }
            let ghost old_storms = storms@;
            storms.push(storm);
            assert(storm_views(storms@) =~= storm_views(old_storms).push(storm_view(storm)));
            assert(storm_views(storms@) + storms_from(nodes, ev, j as nat) =~= storm_views(old_storms) + storms_from(nodes, ev, i as nat));
            i = j;
        } else {
            assert(storms_from(nodes, ev, i as nat) == storms_from(nodes, ev, (i + 1) as nat));
            i = i + 1;
        }
    }
    proof {
        assert(storms_from(nodes, ev, n as nat) =~= Seq::<StormView>::empty());
        assert(storm_views(storms@) =~= storms_from(nodes, ev, 0));
        lemma_storms_from_facts(nodes, ev, 0);
    }
    let ghost raw = storms@;
    merge_overlapping_storms(&mut storms);
    proof {
        let views = storm_views(raw);
        let sp = choose|sp: Seq<int>| {
            &&& #[trigger] is_key_order(storm_starts(raw), sp)
            &&& storm_views(storms@) == merge_run(reorder(views, sp), sp.len())
        };
        assert(keys_sorted(storm_starts(raw))) by {
            assert forall|a: int, b: int| 0 <= a <= b < storm_starts(raw).len() implies storm_starts(raw)[a] <= storm_starts(raw)[b] by {
                assert(views[a] == storm_view(raw[a]));
                assert(views[b] == storm_view(raw[b]));
                if a < b {
                    assert(views[a].1 < views[b].0);
                }
            }
        }
        lemma_sorted_keys_keep_order(storm_starts(raw), sp);
        assert(reorder(views, sp) =~= views);
        lemma_separated_storms_stay_apart(views, views.len());
        assert(views.subrange(0, views.len() as int) =~= views);
        assert(storm_views(storms@) == views);
        assert forall|k: int| 0 <= k < storms@.len() implies {
            &&& (#[trigger] storms@[k]).merges@.len() >= MIN_STORM_MERGES
            &&& storms@[k].time_range.1 == storms@[k].time_range.0 + STORM_WINDOW
            &&& storms@[k].intensity <= 100
            &&& storms@[k].intensity == (if storms@[k].merges@.len() < 10 { storms@[k].merges@.len() as int } else { 10 })
                * (if storms@[k].branch_count < 10 { storms@[k].branch_count as int } else { 10 })
        } by {
            assert(storm_views(storms@)[k] == storm_view(storms@[k]));
            assert(views[k].2 == strings_view(storms@[k].merges@));
            assert(views[k].2.len() == storms@[k].merges@.len());
        }
        assert forall|a: int, b: int| 0 <= a < b < storms@.len() implies (#[trigger] storms@[a]).time_range.1 < (#[trigger] storms@[b]).time_range.0 by {
            assert(storm_views(storms@)[a] == storm_view(storms@[a]));
            assert(storm_views(storms@)[b] == storm_view(storms@[b]));
        }
        assert(is_key_order(event_times(evs), perm));
    }
    storms
}

/// The name of a storm's severity for an intensity in hundredths.
pub open spec fn storm_label_text(intensity: int) -> Seq<char> {
    if intensity >= 80 {
        "severe merge storm"@
    } else if intensity >= 50 {
        "moderate merge storm"@
    } else if intensity >= 30 {
        "minor merge storm"@
    } else {
        "gentle merge breeze"@
    }
}

/// Names the severity of a storm from its intensity in hundredths.
pub fn storm_label(intensity: u32) -> (r: &'static str)
    ensures
        r@ == storm_label_text(intensity as int),
        intensity >= 80 ==> r@ == "severe merge storm"@,
        50 <= intensity < 80 ==> r@ == "moderate merge storm"@,
        30 <= intensity < 50 ==> r@ == "minor merge storm"@,
        intensity < 30 ==> r@ == "gentle merge breeze"@,
{
    if intensity >= 80 {
        "severe merge storm"
    } else if intensity >= 50 {
        "moderate merge storm"
    } else if intensity >= 30 {
        "minor merge storm"
    } else {
        "gentle merge breeze"
    }
}

/// The severity bands of a storm: from 80 hundredths a severe storm, from 50 a
/// moderate one, from 30 a minor one, and below 30 a gentle breeze.
pub proof fn lemma_storm_label_bands(intensity: int)
    ensures
        intensity >= 80 ==> storm_label_text(intensity) == "severe merge storm"@,
        50 <= intensity < 80 ==> storm_label_text(intensity) == "moderate merge storm"@,
        30 <= intensity < 50 ==> storm_label_text(intensity) == "minor merge storm"@,
        intensity < 30 ==> storm_label_text(intensity) == "gentle merge breeze"@,
{
}

/// The intensity of every storm found is `min(merges, 10) * min(branches, 10)`
/// hundredths, counted over the storm's own merges and distinct parents.
pub proof fn lemma_storm_intensity(nodes: Seq<MergeNode>, ev: Seq<(i64, Seq<char>)>, k: int)
    requires
        keys_sorted(event_times(ev)),
        0 <= k < storms_from(nodes, ev, 0).len(),
    ensures
        storms_from(nodes, ev, 0)[k].4 == (if storms_from(nodes, ev, 0)[k].2.len() < 10 { storms_from(nodes, ev, 0)[k].2.len() as int } else { 10 })
            * (if storms_from(nodes, ev, 0)[k].3 < 10 { storms_from(nodes, ev, 0)[k].3 as int } else { 10 }),
{
    lemma_storms_from_facts(nodes, ev, 0);
}

} // verus!
