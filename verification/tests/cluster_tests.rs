//! Tests of the clustering pass over hand-built fingerprints.

use image_dups::get_clusters;
use image_dups::Fingerprint;
use image_dups::HashOutcome;

fn fp(byte: u8) -> HashOutcome {
    HashOutcome::Hash(Fingerprint::from_bytes(vec![byte]))
}

#[test]
fn four_bit_scenario_threshold_one() {
    // Fingerprints 0b0000, 0b0001, 0b0010, 0b1111 at threshold 1:
    // distances 0-1 and 0-2 are 1, 0-3 is 4, 1-2 is 2, so the expected
    // cluster map is {0: [1, 2]} and index 3 stays unclustered.
    let outcomes = vec![fp(0b0000), fp(0b0001), fp(0b0010), fp(0b1111)];
    let clusters = get_clusters(&outcomes, 1);
    assert_eq!(clusters.len(), 1);
    assert_eq!(clusters.get(0), Some(&vec![1usize, 2]));
    assert!(clusters.get(1).is_none());
    assert!(clusters.get(2).is_none());
    assert!(clusters.get(3).is_none());
}

#[test]
fn failure_scenario_threshold_zero() {
    // Fingerprints [Ok(H0), Failure, Ok(H0)] at threshold 0 give {0: [2]};
    // index 1 never appears.
    let outcomes = vec![fp(0b0000), HashOutcome::DecodeFailure, fp(0b0000)];
    let clusters = get_clusters(&outcomes, 0);
    assert_eq!(clusters.len(), 1);
    assert_eq!(clusters.get(0), Some(&vec![2usize]));
    assert!(clusters.get(1).is_none());
    assert!(clusters.get(2).is_none());
    for (rep, members) in clusters.groups() {
        assert_ne!(*rep, 1);
        assert!(!members.contains(&1));
    }
}

#[test]
fn identical_triple_threshold_zero() {
    // Three identical fingerprints: both later indices join the first.
    let outcomes = vec![fp(0xAB), fp(0xAB), fp(0xAB)];
    let clusters = get_clusters(&outcomes, 0);
    assert_eq!(clusters.len(), 1);
    assert_eq!(clusters.get(0), Some(&vec![1usize, 2]));
}

#[test]
fn representative_bias_is_asymmetric() {
    // 0b0000, 0b0011, 0b0110 at threshold 2: pair (0,1) matches, pair (0,2)
    // is at distance 2 and matches, so 2 is claimed by 0 even though it is
    // also within distance 2 of 1. Index 1 is both a member of 0's cluster
    // and never re-checked.
    let outcomes = vec![fp(0b0000), fp(0b0011), fp(0b0110)];
    let clusters = get_clusters(&outcomes, 2);
    assert_eq!(clusters.len(), 1);
    assert_eq!(clusters.get(0), Some(&vec![1usize, 2]));
}

#[test]
fn member_lists_strictly_increase() {
    let outcomes = vec![fp(0x00), fp(0x01), fp(0x00), fp(0x02), fp(0x01), fp(0xF0)];
    let clusters = get_clusters(&outcomes, 1);
    for (_, members) in clusters.groups() {
        for w in members.windows(2) {
            assert!(w[0] < w[1]);
        }
    }
}

#[test]
fn no_index_is_claimed_twice() {
    let outcomes = vec![fp(0x00), fp(0x01), fp(0x03), fp(0x02), fp(0x07), fp(0x0F)];
    let clusters = get_clusters(&outcomes, 2);
    let mut seen: Vec<usize> = Vec::new();
    for (_, members) in clusters.groups() {
        for m in members {
            assert!(!seen.contains(m));
            seen.push(*m);
        }
    }
}

#[test]
fn membership_grows_with_threshold() {
    let outcomes = vec![fp(0b0000), fp(0b0001), fp(0b0111), fp(0b1111)];
    let low = get_clusters(&outcomes, 1);
    let high = get_clusters(&outcomes, 4);
    let mut low_members: Vec<usize> = Vec::new();
    for (_, members) in low.groups() {
        low_members.extend(members.iter().copied());
    }
    let mut high_members: Vec<usize> = Vec::new();
    for (_, members) in high.groups() {
        high_members.extend(members.iter().copied());
    }
    for m in &low_members {
        assert!(high_members.contains(m));
    }
    assert!(high_members.len() > low_members.len());
}

#[test]
fn higher_threshold_can_reassign_a_member() {
    // Raising the threshold keeps every member clustered but may move it
    // under a smaller representative: at threshold 3 only the pair (1, 2)
    // matches; at threshold 5 the pair (0, 2) matches first and claims 2, so
    // the pair (1, 2) finds 2 already taken.
    let outcomes = vec![fp(0b1111_1111), fp(0b0000_0000), fp(0b0000_0111)];
    let low = get_clusters(&outcomes, 3);
    assert_eq!(low.len(), 1);
    assert_eq!(low.get(1), Some(&vec![2usize]));
    let high = get_clusters(&outcomes, 5);
    assert_eq!(high.len(), 1);
    assert_eq!(high.get(0), Some(&vec![2usize]));
    assert!(high.get(1).is_none());
}

#[test]
fn empty_input_gives_empty_map() {
    let outcomes: Vec<HashOutcome> = Vec::new();
    let clusters = get_clusters(&outcomes, 10);
    assert_eq!(clusters.len(), 0);
    assert!(clusters.groups().is_empty());
}

#[test]
fn all_failures_give_empty_map() {
    let outcomes = vec![
        HashOutcome::DecodeFailure,
        HashOutcome::SourceUnavailable,
        HashOutcome::DecodeFailure,
    ];
    let clusters = get_clusters(&outcomes, 100);
    assert_eq!(clusters.len(), 0);
}

#[test]
fn multi_byte_distances() {
    let a = Fingerprint::from_bytes(vec![0x00, 0x00, 0x00, 0x00]);
    let b = Fingerprint::from_bytes(vec![0xFF, 0x00, 0x0F, 0x01]);
    let c = Fingerprint::from_bytes(vec![0x00, 0x00, 0x00, 0x00]);
    assert_eq!(a.dist(&b), 13);
    assert_eq!(b.dist(&a), 13);
    assert_eq!(a.dist(&c), 0);
    assert_eq!(a.dist(&a), 0);
}

#[test]
fn two_separate_clusters() {
    let outcomes = vec![fp(0x11), fp(0xEE), fp(0x11), fp(0xEE)];
    let clusters = get_clusters(&outcomes, 0);
    assert_eq!(clusters.len(), 2);
    assert_eq!(clusters.get(0), Some(&vec![2usize]));
    assert_eq!(clusters.get(1), Some(&vec![3usize]));
}
