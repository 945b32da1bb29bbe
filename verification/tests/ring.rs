use kvstore::digest::{
    node_label, position, position_in, position_of_key, virtual_position, DIGEST_SIZE,
};
use kvstore::ring_hash::RingHash;
use sha1::{Digest, Sha1};

fn ring_of(repl: usize, entries: &[(u64, usize)]) -> RingHash {
    let mut ring = RingHash::new(repl);
    for (position, node) in entries {
        ring.place(*position, *node);
    }
    ring
}

fn groups(ring: &RingHash, keys: usize) -> Vec<Vec<usize>> {
    (0..keys)
        .map(|i| ring.write_group(&format!("key-{i}")).to_vec())
        .collect()
}

#[test]
fn position_is_the_front_of_the_digest() {
    let mut digest = [0u8; DIGEST_SIZE];
    digest[0] = 1;
    assert_eq!(position_in(&digest), 1);
    digest[7] = 0x80;
    assert_eq!(position_in(&digest), 0x8000_0000_0000_0001);
    digest[8] = 0xff;
    assert_eq!(position_in(&digest), 0x8000_0000_0000_0001);
}

#[test]
fn position_is_taken_from_sha1() {
    assert_eq!(position(b"abc"), 0x6a81_0647_363e_99a9);
    assert_eq!(position(b""), 0x0d4b_6b5e_eea3_39da);
    assert_eq!(position_of_key("abc"), 0x6a81_0647_363e_99a9);
}

#[test]
fn label_names_node_and_replica() {
    assert_eq!(node_label(0, 0), b"node_0_rep_0".to_vec());
    assert_eq!(node_label(3, 7), b"node_3_rep_7".to_vec());
    assert_eq!(node_label(10, 109), b"node_10_rep_109".to_vec());
    assert_eq!(
        node_label(usize::MAX, 1_000_000),
        format!("node_{}_rep_1000000", usize::MAX).into_bytes()
    );
}

#[test]
fn virtual_position_is_the_digest_of_the_label() {
    for (node, replica) in [(0usize, 0usize), (3, 7), (12, 345), (usize::MAX, 99)] {
        let digest = Sha1::digest(format!("node_{node}_rep_{replica}"));
        let expected = u64::from_le_bytes(digest[..8].try_into().unwrap());
        assert_eq!(virtual_position(node, replica), expected);
    }
}

#[test]
fn empty_ring_gives_the_empty_group() {
    let ring = RingHash::new(3);
    assert_eq!(ring.write_group("a").to_vec(), Vec::<usize>::new());
    assert_eq!(ring.write_group_at(0).len(), 0);
}

#[test]
fn ring_without_replicas_gives_the_empty_group() {
    let mut ring = ring_of(0, &[(10, 1), (20, 2)]);
    ring.add_node(3);
    assert_eq!(ring.write_group_at(5).to_vec(), Vec::<usize>::new());
}

#[test]
fn walk_starts_behind_the_position() {
    let ring = ring_of(2, &[(10, 1), (20, 2), (30, 3), (40, 4)]);
    assert_eq!(ring.write_group_at(0).to_vec(), vec![1, 2]);
    assert_eq!(ring.write_group_at(15).to_vec(), vec![2, 3]);
    assert_eq!(ring.write_group_at(25).to_vec(), vec![3, 4]);
}

#[test]
fn entry_at_the_position_is_no_match() {
    let ring = ring_of(2, &[(10, 1), (20, 2), (30, 3), (40, 4)]);
    assert_eq!(ring.write_group_at(9).to_vec(), vec![1, 2]);
    assert_eq!(ring.write_group_at(10).to_vec(), vec![2, 3]);
    assert_eq!(ring.write_group_at(20).to_vec(), vec![3, 4]);
}

#[test]
fn walk_wraps_past_the_end() {
    let ring = ring_of(2, &[(10, 1), (20, 2), (30, 3), (40, 4)]);
    assert_eq!(ring.write_group_at(35).to_vec(), vec![4, 1]);
    assert_eq!(ring.write_group_at(40).to_vec(), vec![1, 2]);
    assert_eq!(ring.write_group_at(u64::MAX).to_vec(), vec![1, 2]);
}

#[test]
fn single_entry_at_the_position_is_found_by_wrapping() {
    let ring = ring_of(3, &[(10, 7)]);
    assert_eq!(ring.write_group_at(10).to_vec(), vec![7]);
    assert_eq!(ring.write_group_at(u64::MAX).to_vec(), vec![7]);
}

#[test]
fn node_met_twice_joins_once() {
    let ring = ring_of(3, &[(10, 1), (20, 1), (30, 2), (40, 1), (50, 3)]);
    assert_eq!(ring.write_group_at(0).to_vec(), vec![1, 2, 3]);
    assert_eq!(ring.write_group_at(25).to_vec(), vec![2, 1, 3]);
    assert_eq!(ring.write_group_at(45).to_vec(), vec![3, 1, 2]);
}

#[test]
fn group_is_as_long_as_replicas_or_nodes_allow() {
    let entries = [(10, 1), (20, 1), (30, 2), (40, 1), (50, 3)];
    assert_eq!(ring_of(1, &entries).write_group_at(0).to_vec(), vec![1]);
    assert_eq!(ring_of(2, &entries).write_group_at(0).to_vec(), vec![1, 2]);
    assert_eq!(
        ring_of(3, &entries).write_group_at(0).to_vec(),
        vec![1, 2, 3]
    );
    assert_eq!(
        ring_of(20, &entries).write_group_at(0).to_vec(),
        vec![1, 2, 3]
    );
}

#[test]
fn group_can_hold_more_than_sixteen_nodes() {
    let entries: Vec<(u64, usize)> = (0..40).map(|i| (i as u64 * 10, i)).collect();
    let ring = ring_of(40, &entries);
    let group = ring.write_group_at(195);
    assert_eq!(group.len(), 40);
    let expected: Vec<usize> = (20..40).chain(0..20).collect();
    assert_eq!(group.to_vec(), expected);
}

#[test]
fn group_answers_for_its_nodes() {
    let ring = ring_of(2, &[(10, 1), (20, 2), (30, 3)]);
    let group = ring.write_group_at(15);
    assert_eq!(group.len(), 2);
    assert_eq!(group.get(0), Some(2));
    assert_eq!(group.get(1), Some(3));
    assert_eq!(group.get(2), None);
    assert!(group.contains(3));
    assert!(!group.contains(1));
    assert_eq!(group, ring.write_group_at(19));
    assert_ne!(group, ring.write_group_at(20));
}

#[test]
fn place_replaces_and_clear_removes() {
    let mut ring = ring_of(1, &[(10, 1), (20, 2)]);
    ring.place(10, 5);
    assert_eq!(ring.write_group_at(0).to_vec(), vec![5]);
    ring.clear(10);
    assert_eq!(ring.write_group_at(0).to_vec(), vec![2]);
    ring.clear(10);
    ring.clear(20);
    assert_eq!(ring.write_group_at(0).to_vec(), Vec::<usize>::new());
}

#[test]
fn added_node_stands_at_its_positions() {
    let mut ring = RingHash::new(4);
    ring.add_node(9);
    for replica in 0..4 {
        let at = virtual_position(9, replica);
        assert_eq!(ring.write_group_at(at.wrapping_sub(1)).to_vec(), vec![9]);
    }
    let mut placed = RingHash::new(4);
    for replica in 0..4 {
        placed.place(virtual_position(9, replica), 9);
    }
    assert_eq!(groups(&ring, 50), groups(&placed, 50));
}

#[test]
fn write_group_is_the_same_on_every_call() {
    let mut ring = RingHash::new(3);
    for node in 0..8 {
        ring.add_node(node);
    }
    let first = groups(&ring, 200);
    assert_eq!(first, groups(&ring, 200));
    let mut other = RingHash::new(3);
    for node in (0..8).rev() {
        other.add_node(node);
    }
    assert_eq!(first, groups(&other, 200));
}

#[test]
fn write_group_has_distinct_nodes_of_the_ring() {
    let mut ring = RingHash::new(3);
    for node in 0..8 {
        ring.add_node(node);
    }
    for group in groups(&ring, 200) {
        assert_eq!(group.len(), 3);
        for (i, node) in group.iter().enumerate() {
            assert!(*node < 8);
            assert!(!group[..i].contains(node));
        }
    }
    let mut small = RingHash::new(5);
    small.add_node(1);
    small.add_node(2);
    for group in groups(&small, 50) {
        let mut sorted = group.clone();
        sorted.sort();
        assert_eq!(sorted, vec![1, 2]);
    }
}

#[test]
fn adding_a_node_twice_changes_nothing() {
    let mut ring = RingHash::new(3);
    for node in 0..5 {
        ring.add_node(node);
    }
    let before = groups(&ring, 100);
    ring.add_node(2);
    assert_eq!(before, groups(&ring, 100));
}

#[test]
fn removing_and_adding_again_restores_every_group() {
    let mut ring = RingHash::new(3);
    for node in 0..8 {
        ring.add_node(node);
    }
    let before = groups(&ring, 200);
    ring.remove_node(5);
    let without = groups(&ring, 200);
    assert_ne!(before, without);
    assert!(without.iter().all(|group| !group.contains(&5)));
    ring.add_node(5);
    assert_eq!(before, groups(&ring, 200));
}

#[test]
fn removing_a_node_changes_only_the_groups_it_was_in() {
    let mut ring = RingHash::new(3);
    for node in 0..12 {
        ring.add_node(node);
    }
    let before = groups(&ring, 500);
    ring.remove_node(7);
    let after = groups(&ring, 500);
    let mut kept = 0;
    for (old, new) in before.iter().zip(after.iter()) {
        if !old.contains(&7) {
            assert_eq!(old, new);
            kept += 1;
        } else {
            assert!(!new.contains(&7));
        }
    }
    assert!(kept > 250, "{kept} of 500 groups were kept");
}

#[test]
fn ring_counts_replicas_and_positions() {
    let mut ring = RingHash::new(4);
    assert_eq!(ring.repl(), 4);
    assert_eq!(ring.len(), 0);
    ring.add_node(1);
    assert_eq!(ring.len(), 4);
    ring.add_node(2);
    assert_eq!(ring.len(), 8);
    ring.add_node(1);
    assert_eq!(ring.len(), 8);
    ring.remove_node(1);
    assert_eq!(ring.len(), 4);
    ring.place(virtual_position(2, 0), 9);
    assert_eq!(ring.len(), 4);
    assert_eq!(ring.repl(), 4);
}

#[test]
fn removing_an_unknown_node_changes_nothing() {
    let mut ring = RingHash::new(3);
    for node in 0..5 {
        ring.add_node(node);
    }
    let before = groups(&ring, 100);
    ring.remove_node(77);
    assert_eq!(before, groups(&ring, 100));
}

#[test]
fn adding_a_node_leaves_most_groups_alone() {
    let mut ring = RingHash::new(3);
    for node in 0..20 {
        ring.add_node(node);
    }
    let before = groups(&ring, 1000);
    ring.add_node(20);
    let after = groups(&ring, 1000);
    let mut changed = 0;
    for (old, new) in before.iter().zip(after.iter()) {
        if old != new {
            changed += 1;
            assert!(new.contains(&20));
        }
    }
    assert!(changed > 0);
    assert!(changed < 500, "{changed} of 1000 groups changed");
}
