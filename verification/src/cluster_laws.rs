//! Laws of the clustering pass, proved over `spec_clusters`: what holds of
//! every cluster map the pass can produce.

use crate::cluster::cluster_step;
use crate::cluster::empty_state;
use crate::cluster::run_row;
use crate::cluster::run_rows;
use crate::cluster::spec_cluster_state;
use crate::cluster::spec_clusters;
use crate::cluster::spec_match;
use crate::cluster::uniform_hashes;
use crate::cluster::ClusterState;
use crate::fingerprint::lemma_hamming_zero_iff_eq;
use crate::hashing::HashOutcome;
use vstd::prelude::*;

verus! {

/// `m` is recorded as a member of the cluster represented by `rep`.
pub open spec fn is_member_of(es: Seq<(usize, Seq<usize>)>, rep: usize, m: usize) -> bool {
    exists|k: int| #![trigger es[k]] 0 <= k < es.len() && es[k].0 == rep && es[k].1.contains(m)
}

/// `m` is recorded as a member of some cluster.
pub open spec fn is_member(es: Seq<(usize, Seq<usize>)>, m: usize) -> bool {
    exists|k: int| #![trigger es[k]] 0 <= k < es.len() && es[k].1.contains(m)
}

/// `rep` is the representative of some cluster.
pub open spec fn is_rep(es: Seq<(usize, Seq<usize>)>, rep: usize) -> bool {
    exists|k: int| #![trigger es[k]] 0 <= k < es.len() && es[k].0 == rep
}

/// The members of a list stand in strictly increasing order.
pub open spec fn strictly_increasing(s: Seq<usize>) -> bool {
    forall|p: int, q: int| 0 <= p < q < s.len() ==> s[p] < s[q]
}

/// What holds of every single cluster while the pass runs: the
/// representative and all members are in-range fingerprint indices, the
/// member list is non-empty and strictly increasing, and every member
/// matched its representative.
pub open spec fn entry_wf(hs: Seq<HashOutcome>, threshold: u32, e: (usize, Seq<usize>)) -> bool {
    &&& (e.0 as int) < hs.len()
    &&& hs[e.0 as int]@ is Hash
    &&& e.1.len() > 0
    &&& strictly_increasing(e.1)
    &&& forall|p: int|
        #![trigger e.1[p]]
        0 <= p < e.1.len() ==> {
            &&& e.0 < e.1[p]
            &&& (e.1[p] as int) < hs.len()
            &&& hs[e.1[p] as int]@ is Hash
            &&& spec_match(hs[e.0 as int], hs[e.1[p] as int], threshold)
        }
}

/// What holds of the whole working state when the pass stands before pair
/// `(i, j)`: every cluster is well formed, representatives are strictly
/// increasing and at most `i`, the members claimed for row `i` so far are
/// below `j`, the claimed-index set is exactly the set of members, and no
/// index is recorded as a member twice.
pub open spec fn st_wf(
    st: ClusterState,
    hs: Seq<HashOutcome>,
    threshold: u32,
    i: int,
    j: int,
) -> bool {
    &&& forall|k: int|
        #![trigger st.entries[k]]
        0 <= k < st.entries.len() ==> entry_wf(hs, threshold, st.entries[k])
    &&& forall|k1: int, k2: int|
        #![trigger st.entries[k1].0, st.entries[k2].0]
        0 <= k1 < k2 < st.entries.len() ==> st.entries[k1].0 < st.entries[k2].0
    &&& forall|k: int| #![trigger st.entries[k]] 0 <= k < st.entries.len() ==> st.entries[k].0 <= i
    &&& forall|k: int, p: int|
        #![trigger st.entries[k].1[p]]
        0 <= k < st.entries.len() && st.entries[k].0 == i && 0 <= p < st.entries[k].1.len()
            ==> st.entries[k].1[p] < j
    &&& forall|m: usize| #[trigger] st.consumed.contains(m) ==> is_member(st.entries, m)
    &&& forall|k: int, p: int|
        #![trigger st.entries[k].1[p]]
        0 <= k < st.entries.len() && 0 <= p < st.entries[k].1.len() ==> st.consumed.contains(
            st.entries[k].1[p],
        )
    &&& forall|k1: int, p1: int, k2: int, p2: int|
        #![trigger st.entries[k1].1[p1], st.entries[k2].1[p2]]
        0 <= k1 < st.entries.len() && 0 <= p1 < st.entries[k1].1.len() && 0 <= k2
            < st.entries.len() && 0 <= p2 < st.entries[k2].1.len() && st.entries[k1].1[p1]
            == st.entries[k2].1[p2] ==> k1 == k2 && p1 == p2
}

/// Visiting one pair preserves the working-state invariant.
proof fn lemma_step_wf(st: ClusterState, hs: Seq<HashOutcome>, threshold: u32, i: int, j: int)
    requires
        hs.len() <= usize::MAX,
        st_wf(st, hs, threshold, i, j),
        0 <= i < j < hs.len(),
    ensures
        st_wf(cluster_step(st, hs, threshold, i, j), hs, threshold, i, j + 1),
{
    let st1 = cluster_step(st, hs, threshold, i, j);
    if spec_match(hs[i], hs[j], threshold) && !st.consumed.contains(j as usize) {
        let es = st.entries;
        let es1 = st1.entries;
        let len = es.len() as int;
        // `j` is not yet a member anywhere, else it would be claimed.
        assert forall|k: int, p: int|
            0 <= k < len && 0 <= p < es[k].1.len() implies es[k].1[p] != j as usize by {
            assert(st.consumed.contains(es[k].1[p]));
        }
        if len > 0 && es[len - 1].0 == i as usize {
            let old_last = es[len - 1];
            let new_last = (i as usize, old_last.1.push(j as usize));
            assert(es1 =~= es.update(len - 1, new_last));
            assert forall|k: int| 0 <= k < es1.len() implies entry_wf(hs, threshold, es1[k]) by {
                if k == len - 1 {
                    assert(entry_wf(hs, threshold, old_last));
                    assert forall|p: int| 0 <= p < new_last.1.len() implies {
                        &&& new_last.0 < new_last.1[p]
                        &&& (new_last.1[p] as int) < hs.len()
                        &&& hs[new_last.1[p] as int]@ is Hash
                        &&& spec_match(hs[new_last.0 as int], hs[new_last.1[p] as int], threshold)
                    } by {
                        if p < old_last.1.len() {
                            assert(new_last.1[p] == old_last.1[p]);
                        } else {
                            assert(new_last.1[p] == j as usize);
                        }
                    }
                    assert(strictly_increasing(new_last.1)) by {
                        assert forall|p: int, q: int|
                            0 <= p < q < new_last.1.len() implies new_last.1[p]
                            < new_last.1[q] by {
                            if q < old_last.1.len() {
                                assert(old_last.1[p] < old_last.1[q]);
                            } else {
                                assert(new_last.1[q] == j as usize);
                                assert(old_last.1[p] < j as usize);
                            }
                        }
                    }
                } else {
                    assert(es1[k] == es[k]);
                }
            }
            assert forall|m: usize| #[trigger] st1.consumed.contains(m) implies is_member(
                es1,
                m,
            ) by {
                if m == j as usize {
                    assert(es1[len - 1].1[old_last.1.len() as int] == j as usize);
                    assert(es1[len - 1].1.contains(j as usize));
                } else {
                    assert(st.consumed.contains(m));
                    let k = choose|k: int|
                        #![trigger es[k]]
                        0 <= k < es.len() && es[k].1.contains(m);
                    let p = choose|p: int| 0 <= p < es[k].1.len() && es[k].1[p] == m;
                    assert(es1[k].1[p] == m);
                    assert(es1[k].1.contains(m));
                }
            }
            assert forall|k: int, p: int|
                0 <= k < es1.len() && 0 <= p < es1[k].1.len() implies st1.consumed.contains(
                es1[k].1[p],
            ) by {
                if k == len - 1 && p == old_last.1.len() {
                    assert(es1[k].1[p] == j as usize);
                } else {
                    assert(es1[k].1[p] == es[k].1[p]);
                }
            }
            assert forall|k1: int, p1: int, k2: int, p2: int|
                0 <= k1 < es1.len() && 0 <= p1 < es1[k1].1.len() && 0 <= k2 < es1.len() && 0 <= p2
                    < es1[k2].1.len() && es1[k1].1[p1] == es1[k2].1[p2] implies k1 == k2 && p1
                == p2 by {
                let n1 = old_last.1.len() as int;
                if k1 == len - 1 && p1 == n1 {
                    assert(es1[k1].1[p1] == j as usize);
                    if !(k2 == len - 1 && p2 == n1) {
                        assert(es1[k2].1[p2] == es[k2].1[p2]);
                        assert(es[k2].1[p2] != j as usize);
                    }
                } else if k2 == len - 1 && p2 == n1 {
                    assert(es1[k2].1[p2] == j as usize);
                    assert(es1[k1].1[p1] == es[k1].1[p1]);
                    assert(es[k1].1[p1] != j as usize);
                } else {
                    assert(es1[k1].1[p1] == es[k1].1[p1]);
                    assert(es1[k2].1[p2] == es[k2].1[p2]);
                }
            }
        } else {
            // A new cluster keyed `i` is opened. No existing cluster is keyed
            // `i`: only the most recently created cluster could be.
            assert forall|k: int| 0 <= k < len implies es[k].0 != i as usize by {
                if k < len - 1 {
                    assert(es[k].0 < es[len - 1].0);
                }
            }
            let new_e = (i as usize, seq![j as usize]);
            assert(es1 =~= es.push(new_e));
            assert(new_e.1[0] == j as usize);
            assert forall|k: int| 0 <= k < es1.len() implies entry_wf(hs, threshold, es1[k]) by {
                if k == len {
                    assert(es1[k] == new_e);
                } else {
                    assert(es1[k] == es[k]);
                }
            }
            assert forall|m: usize| #[trigger] st1.consumed.contains(m) implies is_member(
                es1,
                m,
            ) by {
                if m == j as usize {
                    assert(es1[len].1.contains(j as usize));
                } else {
                    assert(st.consumed.contains(m));
                    let k = choose|k: int|
                        #![trigger es[k]]
                        0 <= k < es.len() && es[k].1.contains(m);
                    let p = choose|p: int| 0 <= p < es[k].1.len() && es[k].1[p] == m;
                    assert(es1[k].1[p] == m);
                    assert(es1[k].1.contains(m));
                }
            }
            assert forall|k: int, p: int|
                0 <= k < es1.len() && 0 <= p < es1[k].1.len() implies st1.consumed.contains(
                es1[k].1[p],
            ) by {
                if k == len {
                    assert(es1[k].1[p] == j as usize);
                } else {
                    assert(es1[k].1[p] == es[k].1[p]);
                }
            }
            assert forall|k: int, p: int|
                0 <= k < es.len() && 0 <= p < es[k].1.len() implies es[k].1[p] != j as usize by {
                assert(st.consumed.contains(es[k].1[p]));
            }
            assert forall|k1: int, p1: int, k2: int, p2: int|
                0 <= k1 < es1.len() && 0 <= p1 < es1[k1].1.len() && 0 <= k2 < es1.len() && 0 <= p2
                    < es1[k2].1.len() && es1[k1].1[p1] == es1[k2].1[p2] implies k1 == k2 && p1
                == p2 by {
                if k1 == len {
                    if k2 != len {
                        assert(es1[k2].1[p2] == es[k2].1[p2]);
                        assert(es[k2].1[p2] != j as usize);
                    }
                } else if k2 == len {
                    assert(es1[k1].1[p1] == es[k1].1[p1]);
                    assert(es[k1].1[p1] != j as usize);
                } else {
                    assert(es1[k1].1[p1] == es[k1].1[p1]);
                    assert(es1[k2].1[p2] == es[k2].1[p2]);
                }
            }
        }
    }
}

/// Visiting the rest of a row preserves the invariant up to the row's end.
proof fn lemma_run_row_wf(st: ClusterState, hs: Seq<HashOutcome>, threshold: u32, i: int, j: int)
    requires
        hs.len() <= usize::MAX,
        0 <= i < hs.len(),
        i + 1 <= j <= hs.len(),
        st_wf(st, hs, threshold, i, j),
    ensures
        st_wf(run_row(st, hs, threshold, i, j), hs, threshold, i, hs.len() as int),
    decreases hs.len() - j,
{
    if j < hs.len() {
        lemma_step_wf(st, hs, threshold, i, j);
        lemma_run_row_wf(cluster_step(st, hs, threshold, i, j), hs, threshold, i, j + 1);
    }
}

/// At the end of a row the invariant carries over to the start of the next.
proof fn lemma_advance_wf(st: ClusterState, hs: Seq<HashOutcome>, threshold: u32, i: int)
    requires
        0 <= i,
        st_wf(st, hs, threshold, i, hs.len() as int),
    ensures
        st_wf(st, hs, threshold, i + 1, i + 2),
{
    assert forall|k: int, p: int|
        0 <= k < st.entries.len() && st.entries[k].0 == i + 1 && 0 <= p
            < st.entries[k].1.len() implies st.entries[k].1[p] < i + 2 by {
        assert(st.entries[k].0 <= i);
    }
}

/// Visiting the remaining rows preserves the invariant to the very end.
proof fn lemma_run_rows_wf(st: ClusterState, hs: Seq<HashOutcome>, threshold: u32, i: int)
    requires
        hs.len() <= usize::MAX,
        0 <= i <= hs.len(),
        st_wf(st, hs, threshold, i, i + 1),
    ensures
        st_wf(
            run_rows(st, hs, threshold, i),
            hs,
            threshold,
            hs.len() as int,
            hs.len() as int + 1,
        ),
    decreases hs.len() - i,
{
    if i < hs.len() {
        let after_row = run_row(st, hs, threshold, i, i + 1);
        lemma_run_row_wf(st, hs, threshold, i, i + 1);
        lemma_advance_wf(after_row, hs, threshold, i);
        lemma_run_rows_wf(after_row, hs, threshold, i + 1);
    }
}

/// The final state of the clustering pass satisfies the invariant.
proof fn lemma_clusters_wf(hs: Seq<HashOutcome>, threshold: u32)
    requires
        hs.len() <= usize::MAX,
    ensures
        st_wf(
            spec_cluster_state(hs, threshold),
            hs,
            threshold,
            hs.len() as int,
            hs.len() as int + 1,
        ),
{
    lemma_run_rows_wf(empty_state(), hs, threshold, 0);
}

/// Member ordering: every member list of a produced cluster map stands in
/// strictly increasing order.
pub proof fn lemma_member_ordering(hs: Seq<HashOutcome>, threshold: u32, k: int)
    requires
        hs.len() <= usize::MAX,
        0 <= k < spec_clusters(hs, threshold).len(),
    ensures
        strictly_increasing(spec_clusters(hs, threshold)[k].1),
        spec_clusters(hs, threshold)[k].1.len() > 0,
{
    lemma_clusters_wf(hs, threshold);
}

/// Failure isolation: an index whose outcome is not a fingerprint never
/// appears in a produced cluster map, neither as a representative nor as a
/// member, for any threshold.
pub proof fn lemma_failure_isolation(hs: Seq<HashOutcome>, threshold: u32, ix: usize)
    requires
        hs.len() <= usize::MAX,
        (ix as int) < hs.len(),
        !(hs[ix as int]@ is Hash),
    ensures
        !is_rep(spec_clusters(hs, threshold), ix),
        !is_member(spec_clusters(hs, threshold), ix),
{
    lemma_clusters_wf(hs, threshold);
    let es = spec_clusters(hs, threshold);
    assert forall|k: int| 0 <= k < es.len() implies es[k].0 != ix && !es[k].1.contains(ix) by {
        assert(hs[es[k].0 as int]@ is Hash);
        if es[k].1.contains(ix) {
            let p = choose|p: int| 0 <= p < es[k].1.len() && es[k].1[p] == ix;
            assert(hs[es[k].1[p] as int]@ is Hash);
        }
    }
}

/// Single consumption: no index is recorded as a member twice — not under
/// two different representatives and not twice in one list.
pub proof fn lemma_single_consumption(
    hs: Seq<HashOutcome>,
    threshold: u32,
    k1: int,
    p1: int,
    k2: int,
    p2: int,
)
    requires
        hs.len() <= usize::MAX,
        0 <= k1 < spec_clusters(hs, threshold).len(),
        0 <= p1 < spec_clusters(hs, threshold)[k1].1.len(),
        0 <= k2 < spec_clusters(hs, threshold).len(),
        0 <= p2 < spec_clusters(hs, threshold)[k2].1.len(),
        spec_clusters(hs, threshold)[k1].1[p1] == spec_clusters(hs, threshold)[k2].1[p2],
    ensures
        k1 == k2 && p1 == p2,
{
    lemma_clusters_wf(hs, threshold);
}

/// Every member matched its representative, and the representative stands
/// strictly before all of its members.
pub proof fn lemma_members_match_rep(hs: Seq<HashOutcome>, threshold: u32, k: int, p: int)
    requires
        hs.len() <= usize::MAX,
        0 <= k < spec_clusters(hs, threshold).len(),
        0 <= p < spec_clusters(hs, threshold)[k].1.len(),
    ensures
        spec_clusters(hs, threshold)[k].0 < spec_clusters(hs, threshold)[k].1[p],
        spec_match(
            hs[spec_clusters(hs, threshold)[k].0 as int],
            hs[spec_clusters(hs, threshold)[k].1[p] as int],
            threshold,
        ),
{
    lemma_clusters_wf(hs, threshold);
}

/// Matches only grow as the threshold increases: a pair that matches at a
/// lower threshold matches at any higher one.
pub proof fn lemma_match_monotone(a: HashOutcome, b: HashOutcome, t1: u32, t2: u32)
    requires
        t1 <= t2,
        spec_match(a, b, t1),
    ensures
        spec_match(a, b, t2),
{
}

/// Raising the threshold can only grow the claimed-index set of one pair
/// visit.
proof fn lemma_step_consumed_mono(
    st1: ClusterState,
    st2: ClusterState,
    hs: Seq<HashOutcome>,
    t1: u32,
    t2: u32,
    i: int,
    j: int,
)
    requires
        t1 <= t2,
        st1.consumed.subset_of(st2.consumed),
    ensures
        cluster_step(st1, hs, t1, i, j).consumed.subset_of(cluster_step(st2, hs, t2, i, j).consumed),
{
    let c1 = cluster_step(st1, hs, t1, i, j).consumed;
    let c2 = cluster_step(st2, hs, t2, i, j).consumed;
    assert forall|m: usize| c1.contains(m) implies c2.contains(m) by {
        if spec_match(hs[i], hs[j], t1) && !st1.consumed.contains(j as usize) && m == j as usize {
            if st2.consumed.contains(j as usize) {
                assert(c2.contains(m));
            } else {
                assert(spec_match(hs[i], hs[j], t2));
                assert(c2 == st2.consumed.insert(j as usize));
            }
        } else {
            assert(st1.consumed.contains(m));
        }
    }
}

/// Raising the threshold can only grow the claimed-index set over the rest
/// of a row.
proof fn lemma_run_row_consumed_mono(
    st1: ClusterState,
    st2: ClusterState,
    hs: Seq<HashOutcome>,
    t1: u32,
    t2: u32,
    i: int,
    j: int,
)
    requires
        t1 <= t2,
        st1.consumed.subset_of(st2.consumed),
    ensures
        run_row(st1, hs, t1, i, j).consumed.subset_of(run_row(st2, hs, t2, i, j).consumed),
    decreases hs.len() - j,
{
    if !(j < i + 1 || j >= hs.len()) {
        lemma_step_consumed_mono(st1, st2, hs, t1, t2, i, j);
        lemma_run_row_consumed_mono(
            cluster_step(st1, hs, t1, i, j),
            cluster_step(st2, hs, t2, i, j),
            hs,
            t1,
            t2,
            i,
            j + 1,
        );
    }
}

/// Raising the threshold can only grow the claimed-index set over the
/// remaining rows.
proof fn lemma_run_rows_consumed_mono(
    st1: ClusterState,
    st2: ClusterState,
    hs: Seq<HashOutcome>,
    t1: u32,
    t2: u32,
    i: int,
)
    requires
        t1 <= t2,
        st1.consumed.subset_of(st2.consumed),
    ensures
        run_rows(st1, hs, t1, i).consumed.subset_of(run_rows(st2, hs, t2, i).consumed),
    decreases hs.len() - i,
{
    if !(i < 0 || i >= hs.len()) {
        lemma_run_row_consumed_mono(st1, st2, hs, t1, t2, i, i + 1);
        lemma_run_rows_consumed_mono(
            run_row(st1, hs, t1, i, i + 1),
            run_row(st2, hs, t2, i, i + 1),
            hs,
            t1,
            t2,
            i + 1,
        );
    }
}

/// Threshold monotonicity: an index claimed as a member at a lower
/// threshold is also claimed at any higher threshold, though possibly under
/// a different representative.
pub proof fn lemma_threshold_monotone(hs: Seq<HashOutcome>, t1: u32, t2: u32, m: usize)
    requires
        hs.len() <= usize::MAX,
        t1 <= t2,
        is_member(spec_clusters(hs, t1), m),
    ensures
        is_member(spec_clusters(hs, t2), m),
{
    lemma_clusters_wf(hs, t1);
    lemma_clusters_wf(hs, t2);
    lemma_run_rows_consumed_mono(empty_state(), empty_state(), hs, t1, t2, 0);
    let es1 = spec_clusters(hs, t1);
    let k = choose|k: int| #![trigger es1[k]] 0 <= k < es1.len() && es1[k].1.contains(m);
    let p = choose|p: int| 0 <= p < es1[k].1.len() && es1[k].1[p] == m;
    assert(spec_cluster_state(hs, t1).consumed.contains(m));
    assert(spec_cluster_state(hs, t2).consumed.contains(m));
}

/// The premises of the exact-duplicate law: `i` is the earliest index whose
/// fingerprint is bit-identical to `j`'s, and `i` comes before `j`.
spec fn dup_premise(hs: Seq<HashOutcome>, i: int, j: int) -> bool {
    &&& uniform_hashes(hs)
    &&& 0 <= i < j < hs.len() <= usize::MAX
    &&& hs[i]@ is Hash
    &&& hs[j]@ is Hash
    &&& hs[i]@.bits() == hs[j]@.bits()
    &&& forall|r: int|
        #![trigger hs[r]]
        0 <= r < i && hs[r]@ is Hash ==> hs[r]@.bits() != hs[j]@.bits()
}

/// No index before the earliest duplicate matches `j` at threshold zero.
proof fn lemma_step_no_match_j(hs: Seq<HashOutcome>, i: int, j: int, r: int)
    requires
        dup_premise(hs, i, j),
        0 <= r < i,
    ensures
        !spec_match(hs[r], hs[j], 0),
{
    if spec_match(hs[r], hs[j], 0) {
        lemma_hamming_zero_iff_eq(hs[r]@.bits(), hs[j]@.bits());
        assert(hs[r]@.bits() == hs[j]@.bits());
    }
}

/// The rest of a row before row `i` leaves `j` unclaimed.
proof fn lemma_row_keeps_j(
    st: ClusterState,
    hs: Seq<HashOutcome>,
    i: int,
    j: int,
    r: int,
    c: int,
)
    requires
        dup_premise(hs, i, j),
        0 <= r < i,
        r + 1 <= c,
        !st.consumed.contains(j as usize),
    ensures
        !run_row(st, hs, 0, r, c).consumed.contains(j as usize),
    decreases hs.len() - c,
{
    if !(c < r + 1 || c >= hs.len()) {
        let st1 = cluster_step(st, hs, 0, r, c);
        if c == j {
            lemma_step_no_match_j(hs, i, j, r);
        }
        assert(!st1.consumed.contains(j as usize));
        lemma_row_keeps_j(st1, hs, i, j, r, c + 1);
    }
}

/// Once recorded, a membership survives every later pair visit.
proof fn lemma_step_keeps_member(
    st: ClusterState,
    hs: Seq<HashOutcome>,
    t: u32,
    i2: int,
    j2: int,
    rep: usize,
    m: usize,
)
    requires
        is_member_of(st.entries, rep, m),
    ensures
        is_member_of(cluster_step(st, hs, t, i2, j2).entries, rep, m),
{
    let es = st.entries;
    let es1 = cluster_step(st, hs, t, i2, j2).entries;
    let k = choose|k: int|
        #![trigger es[k]]
        0 <= k < es.len() && es[k].0 == rep && es[k].1.contains(m);
    let p = choose|p: int| 0 <= p < es[k].1.len() && es[k].1[p] == m;
    if spec_match(hs[i2], hs[j2], t) && !st.consumed.contains(j2 as usize) {
        let len = es.len() as int;
        if len > 0 && es[len - 1].0 == i2 as usize {
            if k == len - 1 {
                assert(es1[k].0 == rep);
                assert(es1[k].1[p] == m);
                assert(es1[k].1.contains(m));
            } else {
                assert(es1[k] == es[k]);
            }
        } else {
            assert(es1[k] == es[k]);
        }
        assert(is_member_of(es1, rep, m));
    }
}

/// Once recorded, a membership survives the rest of a row.
proof fn lemma_run_row_keeps_member(
    st: ClusterState,
    hs: Seq<HashOutcome>,
    t: u32,
    i2: int,
    c: int,
    rep: usize,
    m: usize,
)
    requires
        is_member_of(st.entries, rep, m),
    ensures
        is_member_of(run_row(st, hs, t, i2, c).entries, rep, m),
    decreases hs.len() - c,
{
    if !(c < i2 + 1 || c >= hs.len()) {
        lemma_step_keeps_member(st, hs, t, i2, c, rep, m);
        lemma_run_row_keeps_member(cluster_step(st, hs, t, i2, c), hs, t, i2, c + 1, rep, m);
    }
}

/// Once recorded, a membership survives all remaining rows.
proof fn lemma_run_rows_keeps_member(
    st: ClusterState,
    hs: Seq<HashOutcome>,
    t: u32,
    r: int,
    rep: usize,
    m: usize,
)
    requires
        is_member_of(st.entries, rep, m),
    ensures
        is_member_of(run_rows(st, hs, t, r).entries, rep, m),
    decreases hs.len() - r,
{
    if !(r < 0 || r >= hs.len()) {
        lemma_run_row_keeps_member(st, hs, t, r, r + 1, rep, m);
        lemma_run_rows_keeps_member(run_row(st, hs, t, r, r + 1), hs, t, r + 1, rep, m);
    }
}

/// Row `i` itself records `j` as a member of `i`'s cluster, provided `j` is
/// still unclaimed when the row reaches column `c`.
proof fn lemma_row_i_hits(st: ClusterState, hs: Seq<HashOutcome>, i: int, j: int, c: int)
    requires
        dup_premise(hs, i, j),
        i + 1 <= c <= j,
        !st.consumed.contains(j as usize),
    ensures
        is_member_of(run_row(st, hs, 0, i, c).entries, i as usize, j as usize),
    decreases hs.len() - c,
{
    let st1 = cluster_step(st, hs, 0, i, c);
    if c == j {
        lemma_hamming_zero_iff_eq(hs[i]@.bits(), hs[j]@.bits());
        assert(spec_match(hs[i], hs[j], 0));
        let es = st.entries;
        let es1 = st1.entries;
        let len = es.len() as int;
        if len > 0 && es[len - 1].0 == i as usize {
            assert(es1[len - 1].0 == i as usize);
            assert(es1[len - 1].1[es[len - 1].1.len() as int] == j as usize);
            assert(es1[len - 1].1.contains(j as usize));
        } else {
            assert(es1[len].0 == i as usize);
            assert(es1[len].1[0] == j as usize);
            assert(es1[len].1.contains(j as usize));
        }
        assert(is_member_of(st1.entries, i as usize, j as usize));
        lemma_run_row_keeps_member(st1, hs, 0, i, c + 1, i as usize, j as usize);
    } else {
        assert(!st1.consumed.contains(j as usize));
        lemma_row_i_hits(st1, hs, i, j, c + 1);
    }
}

/// Running the pass from any row at or before `i` records `j` under `i`.
proof fn lemma_rows_reach_i(st: ClusterState, hs: Seq<HashOutcome>, i: int, j: int, r: int)
    requires
        dup_premise(hs, i, j),
        0 <= r <= i,
        !st.consumed.contains(j as usize),
    ensures
        is_member_of(run_rows(st, hs, 0, r).entries, i as usize, j as usize),
    decreases hs.len() - r,
{
    let after = run_row(st, hs, 0, r, r + 1);
    if r == i {
        lemma_row_i_hits(st, hs, i, j, i + 1);
        lemma_run_rows_keeps_member(after, hs, 0, r + 1, i as usize, j as usize);
    } else {
        lemma_row_keeps_j(st, hs, i, j, r, r + 1);
        lemma_rows_reach_i(after, hs, i, j, r + 1);
    }
}

/// A claimed index stays claimed across one pair visit.
proof fn lemma_step_consumed_grows(
    st: ClusterState,
    hs: Seq<HashOutcome>,
    t: u32,
    i: int,
    j: int,
    m: usize,
)
    requires
        st.consumed.contains(m),
    ensures
        cluster_step(st, hs, t, i, j).consumed.contains(m),
{
}

/// A claimed index stays claimed over the rest of a row.
proof fn lemma_run_row_consumed_grows(
    st: ClusterState,
    hs: Seq<HashOutcome>,
    t: u32,
    i: int,
    c: int,
    m: usize,
)
    requires
        st.consumed.contains(m),
    ensures
        run_row(st, hs, t, i, c).consumed.contains(m),
    decreases hs.len() - c,
{
    if !(c < i + 1 || c >= hs.len()) {
        lemma_step_consumed_grows(st, hs, t, i, c, m);
        lemma_run_row_consumed_grows(cluster_step(st, hs, t, i, c), hs, t, i, c + 1, m);
    }
}

/// A claimed index stays claimed over all remaining rows.
proof fn lemma_run_rows_consumed_grows(
    st: ClusterState,
    hs: Seq<HashOutcome>,
    t: u32,
    r: int,
    m: usize,
)
    requires
        st.consumed.contains(m),
    ensures
        run_rows(st, hs, t, r).consumed.contains(m),
    decreases hs.len() - r,
{
    if !(r < 0 || r >= hs.len()) {
        lemma_run_row_consumed_grows(st, hs, t, r, r + 1, m);
        lemma_run_rows_consumed_grows(run_row(st, hs, t, r, r + 1), hs, t, r + 1, m);
    }
}

/// By the end of row `i`, an index `j` that matches `i` has been claimed,
/// by this pair visit if by no earlier one.
proof fn lemma_row_i_consumes_j(
    st: ClusterState,
    hs: Seq<HashOutcome>,
    t: u32,
    i: int,
    j: int,
    c: int,
)
    requires
        0 <= i < j < hs.len() <= usize::MAX,
        spec_match(hs[i], hs[j], t),
        i + 1 <= c <= j,
    ensures
        run_row(st, hs, t, i, c).consumed.contains(j as usize),
    decreases hs.len() - c,
{
    let st1 = cluster_step(st, hs, t, i, c);
    if c == j {
        assert(st1.consumed.contains(j as usize));
        lemma_run_row_consumed_grows(st1, hs, t, i, c + 1, j as usize);
    } else {
        lemma_row_i_consumes_j(st1, hs, t, i, j, c + 1);
    }
}

/// Running the pass from any row at or before `i` claims `j`.
proof fn lemma_rows_consume_j(
    st: ClusterState,
    hs: Seq<HashOutcome>,
    t: u32,
    i: int,
    j: int,
    r: int,
)
    requires
        0 <= r <= i < j < hs.len() <= usize::MAX,
        spec_match(hs[i], hs[j], t),
    ensures
        run_rows(st, hs, t, r).consumed.contains(j as usize),
    decreases hs.len() - r,
{
    let after = run_row(st, hs, t, r, r + 1);
    if r == i {
        lemma_row_i_consumes_j(st, hs, t, i, j, i + 1);
        lemma_run_rows_consumed_grows(after, hs, t, r + 1, j as usize);
    } else {
        lemma_rows_consume_j(after, hs, t, i, j, r + 1);
    }
}

/// A later index that matches some earlier fingerprint is always claimed as
/// a member of some cluster; in particular, at threshold zero an exact
/// duplicate of an earlier image never goes unclustered.
pub proof fn lemma_match_always_claimed(hs: Seq<HashOutcome>, threshold: u32, i: usize, j: usize)
    requires
        hs.len() <= usize::MAX,
        i < j,
        (j as int) < hs.len(),
        spec_match(hs[i as int], hs[j as int], threshold),
    ensures
        is_member(spec_clusters(hs, threshold), j),
{
    lemma_clusters_wf(hs, threshold);
    lemma_rows_consume_j(empty_state(), hs, threshold, i as int, j as int, 0);
    assert(spec_cluster_state(hs, threshold).consumed.contains(j));
}

/// Exact-duplicate clustering: at threshold zero, an index `j` whose
/// fingerprint is bit-identical to that of an earlier index `i` — with `i`
/// the earliest index carrying that bit pattern — is placed in `i`'s member
/// list.
pub proof fn lemma_exact_duplicate(hs: Seq<HashOutcome>, i: usize, j: usize)
    requires
        hs.len() <= usize::MAX,
        uniform_hashes(hs),
        i < j,
        (j as int) < hs.len(),
        hs[i as int]@ is Hash,
        hs[j as int]@ is Hash,
        hs[i as int]@.bits() == hs[j as int]@.bits(),
        forall|r: int|
            #![trigger hs[r]]
            0 <= r < i && hs[r]@ is Hash ==> hs[r]@.bits() != hs[j as int]@.bits(),
    ensures
        is_member_of(spec_clusters(hs, 0), i, j),
{
    assert(dup_premise(hs, i as int, j as int));
    lemma_rows_reach_i(empty_state(), hs, i as int, j as int, 0);
}

} // verus!
