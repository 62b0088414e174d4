//! Greedy single-link clustering of a fingerprint set.
//!
//! Every unordered index pair `(i, j)` with `i < j` is visited in
//! lexicographic order. A pair matches when both outcomes are fingerprints
//! and their Hamming distance is at most the threshold. A matching `j` that
//! was not already claimed as a member of an earlier cluster is appended to
//! the member list of representative `i` and claimed. Whether `i` itself was
//! already claimed is deliberately never checked: clustering is single-link
//! and representative-biased toward the smallest surviving index, not
//! transitively closed.

use crate::fingerprint::hamming;
use crate::hashing::HashOutcome;
use std::collections::HashSet;
use vstd::prelude::*;

verus! {

broadcast use vstd::std_specs::hash::group_hash_axioms;

/// Two outcomes match when both carry a fingerprint and the fingerprints'
/// Hamming distance is at most `threshold`.
pub open spec fn spec_match(a: HashOutcome, b: HashOutcome, threshold: u32) -> bool {
    &&& a@ is Hash
    &&& b@ is Hash
    &&& hamming(a@.bits(), b@.bits()) <= threshold
}

/// All fingerprints in the set have one common byte width.
pub open spec fn uniform_hashes(hs: Seq<HashOutcome>) -> bool {
    forall|a: int, b: int|
        #![trigger hs[a], hs[b]]
        0 <= a < hs.len() && 0 <= b < hs.len() && hs[a]@ is Hash && hs[b]@ is Hash ==> hs[a]@.bits().len()
            == hs[b]@.bits().len()
}

/// Every fingerprint in the set is small enough for its distances to be
/// counted in a `u32`.
pub open spec fn bounded_hashes(hs: Seq<HashOutcome>) -> bool {
    forall|a: int|
        #![trigger hs[a]]
        0 <= a < hs.len() && hs[a]@ is Hash ==> hs[a]@.bits().len() <= 0x1000_0000
}

/// The working state of the clustering pass: the clusters built so far, in
/// order of creation, and the set of indices already claimed as a member of
/// some cluster.
#[verifier::ext_equal]
pub struct ClusterState {
    pub entries: Seq<(usize, Seq<usize>)>,
    pub consumed: Set<usize>,
}

/// The state before any pair has been visited.
pub open spec fn empty_state() -> ClusterState {
    ClusterState { entries: Seq::empty(), consumed: Set::empty() }
}

/// Record `m` as a member of representative `rep`: append to `rep`'s member
/// list if it is the most recently created cluster, otherwise open a new
/// cluster. During row `rep` of the pair enumeration, a cluster keyed `rep`
/// can only be the most recently created one.
pub open spec fn push_member(
    es: Seq<(usize, Seq<usize>)>,
    rep: usize,
    m: usize,
) -> Seq<(usize, Seq<usize>)> {
    if es.len() > 0 && es[es.len() - 1].0 == rep {
        es.update(es.len() - 1, (rep, es[es.len() - 1].1.push(m)))
    } else {
        es.push((rep, seq![m]))
    }
}

/// Visit the pair `(i, j)`: when the pair matches and `j` is still
/// unclaimed, `j` joins `i`'s cluster and is claimed; otherwise nothing
/// changes. `i` being already claimed is deliberately not checked.
pub open spec fn cluster_step(
    st: ClusterState,
    hs: Seq<HashOutcome>,
    threshold: u32,
    i: int,
    j: int,
) -> ClusterState {
    if spec_match(hs[i], hs[j], threshold) && !st.consumed.contains(j as usize) {
        ClusterState {
            entries: push_member(st.entries, i as usize, j as usize),
            consumed: st.consumed.insert(j as usize),
        }
    } else {
        st
    }
}

/// Visit the remaining pairs `(i, j), (i, j + 1), ..., (i, hs.len() - 1)` of
/// row `i`, in order.
pub open spec fn run_row(
    st: ClusterState,
    hs: Seq<HashOutcome>,
    threshold: u32,
    i: int,
    j: int,
) -> ClusterState
    decreases hs.len() - j,
{
    if j < i + 1 || j >= hs.len() {
        st
    } else {
        run_row(cluster_step(st, hs, threshold, i, j), hs, threshold, i, j + 1)
    }
}

/// Visit the remaining rows `i, i + 1, ..., hs.len() - 1`, in order.
pub open spec fn run_rows(
    st: ClusterState,
    hs: Seq<HashOutcome>,
    threshold: u32,
    i: int,
) -> ClusterState
    decreases hs.len() - i,
{
    if i < 0 || i >= hs.len() {
        st
    } else {
        run_rows(run_row(st, hs, threshold, i, i + 1), hs, threshold, i + 1)
    }
}

/// The final state of the clustering pass over a fingerprint set.
pub open spec fn spec_cluster_state(hs: Seq<HashOutcome>, threshold: u32) -> ClusterState {
    run_rows(empty_state(), hs, threshold, 0)
}

/// The clusters that the pass over a fingerprint set produces.
pub open spec fn spec_clusters(hs: Seq<HashOutcome>, threshold: u32) -> Seq<(usize, Seq<usize>)> {
    spec_cluster_state(hs, threshold).entries
}

/// The abstract value of a sequence of (representative, members) pairs.
pub open spec fn entries_view(es: Seq<(usize, Vec<usize>)>) -> Seq<(usize, Seq<usize>)> {
    Seq::new(es.len(), |k: int| (es[k].0, es[k].1@))
}

/// The clustering state that given concrete entries and claimed-index set
/// stand for.
pub open spec fn st_of(es: Seq<(usize, Vec<usize>)>, used: Set<usize>) -> ClusterState {
    ClusterState { entries: entries_view(es), consumed: used }
}

/// A mapping from representative index to the ordered list of member
/// indices of that representative's cluster, in order of cluster creation.
#[derive(Debug, Clone, PartialEq, Eq)]
pub struct ClusterMap {
    entries: Vec<(usize, Vec<usize>)>,
}

impl View for ClusterMap {
    type V = Seq<(usize, Seq<usize>)>;

    closed spec fn view(&self) -> Seq<(usize, Seq<usize>)> {
        entries_view(self.entries@)
    }
}

impl ClusterMap {
    /// The clusters, as (representative, members) pairs in creation order.
    pub fn groups(&self) -> (r: &Vec<(usize, Vec<usize>)>)
        ensures
            entries_view(r@) == self@,
    {
        &self.entries
    }

    /// The number of clusters.
    pub fn len(&self) -> (n: usize)
        ensures
            n == self@.len(),
    {
        self.entries.len()
    }

    /// The member list of the cluster represented by `rep`, if that cluster
    /// exists.
    pub fn get(&self, rep: usize) -> (r: Option<&Vec<usize>>)
        ensures
            match r {
                Some(ms) => exists|k: int|
                    #![trigger self@[k]]
                    0 <= k < self@.len() && self@[k].0 == rep && self@[k].1 == ms@,
                None => forall|k: int| #![trigger self@[k]] 0 <= k < self@.len() ==> self@[k].0 != rep,
            },
    {
        let n = self.entries.len();
        let mut k: usize = 0;
        while k < n
            invariant
                n == self.entries@.len(),
                k <= n,
                forall|p: int| #![trigger self@[p]] 0 <= p < k ==> self@[p].0 != rep,
            decreases n - k,
        {
            if self.entries[k].0 == rep {
                assert(self@[k as int].0 == rep && self@[k as int].1 == self.entries@[k as int].1@);
                return Some(&self.entries[k].1);
            }
            assert(self@[k as int].0 != rep);
            k = k + 1;
        }
        None
    }
}

/// Cluster a fingerprint set: visit every index pair `(i, j)`, `i < j`, in
/// lexicographic order, and give each matching, still unclaimed `j` to the
/// cluster of the smallest `i` it matches. Failed outcomes are skipped and
/// never appear in the result; the pass never fails.
pub fn get_clusters(hash_list: &Vec<HashOutcome>, threshold: u32) -> (r: ClusterMap)
    requires
        uniform_hashes(hash_list@),
        bounded_hashes(hash_list@),
    ensures
        r@ == spec_clusters(hash_list@, threshold),
{
    let n = hash_list.len();
    let mut entries: Vec<(usize, Vec<usize>)> = Vec::new();
    let mut used: HashSet<usize> = HashSet::new();
    proof {
        assert(st_of(entries@, used@) =~~= empty_state());
    }
    let mut i: usize = 0;
    while i < n
        invariant
            n == hash_list@.len(),
            uniform_hashes(hash_list@),
            bounded_hashes(hash_list@),
            i <= n,
            run_rows(st_of(entries@, used@), hash_list@, threshold, i as int)
                == spec_cluster_state(hash_list@, threshold),
        decreases n - i,
    {
        let mut j: usize = i + 1;
        while j < n
            invariant
                n == hash_list@.len(),
                uniform_hashes(hash_list@),
                bounded_hashes(hash_list@),
                i < n,
                i + 1 <= j <= n,
                run_rows(
                    run_row(st_of(entries@, used@), hash_list@, threshold, i as int, j as int),
                    hash_list@,
                    threshold,
                    i as int + 1,
                ) == spec_cluster_state(hash_list@, threshold),
            decreases n - j,
        {
            let ghost st0 = st_of(entries@, used@);
            let ghost stepped = cluster_step(st0, hash_list@, threshold, i as int, j as int);
            match (&hash_list[i], &hash_list[j]) {
                (HashOutcome::Hash(fa), HashOutcome::Hash(fb)) => {
                    if !used.contains(&j) {
                        if fa.dist(fb) <= threshold {
                            let el = entries.len();
                            if el > 0 && entries[el - 1].0 == i {
                                let (rep, mut ms) = match entries.pop() {
                                    Some(last) => last,
                                    None => (0, Vec::new()),
                                };
                                ms.push(j);
                                entries.push((rep, ms));
                            } else {
                                let mut ms: Vec<usize> = Vec::new();
                                ms.push(j);
                                entries.push((i, ms));
                            }
                            used.insert(j);
                            proof {
                                assert(spec_match(
                                    hash_list@[i as int],
                                    hash_list@[j as int],
                                    threshold,
                                ));
                                assert(stepped.entries =~~= entries_view(entries@));
                                assert(stepped.consumed =~= used@);
                                assert(st_of(entries@, used@) =~~= stepped);
                            }
                        } else {
                            proof {
                                assert(!spec_match(
                                    hash_list@[i as int],
                                    hash_list@[j as int],
                                    threshold,
                                ));
                                assert(st_of(entries@, used@) == stepped);
                            }
                        }
                    } else {
                        proof {
                            assert(st0.consumed.contains(j));
                            assert(st_of(entries@, used@) == stepped);
                        }
                    }
                },
                _ => {
                    proof {
                        assert(!spec_match(hash_list@[i as int], hash_list@[j as int], threshold));
                        assert(st_of(entries@, used@) == stepped);
                    }
                },
            }
            proof {
                assert(run_row(st0, hash_list@, threshold, i as int, j as int) == run_row(
                    stepped,
                    hash_list@,
                    threshold,
                    i as int,
                    j as int + 1,
                ));
            }
            j = j + 1;
        }
        i = i + 1;
    }
    ClusterMap { entries }
}

} // verus!
