use adaptive_radix_tree::art::{ArtTree, NodeKind};
use adaptive_radix_tree::keys::{common_prefix_len, keys_equal};
use adaptive_radix_tree::node::Node;
use adaptive_radix_tree::slots::{
    empty_slots, keys_insert, keys_remove, pad_slots, take_slot, upper_bound,
};
use adaptive_radix_tree::u64_art_map::{u64_to_key, u8_list_to_u64_key, U64ArtMap};
use std::collections::BTreeMap;

fn lcg(state: &mut u64) -> u64 {
    *state = state
        .wrapping_mul(6364136223846793005)
        .wrapping_add(1442695040888963407);
    *state >> 11
}

fn collect(tree: &mut ArtTree<u32>) -> Vec<u32> {
    let mut seen = Vec::new();
    let stopped = tree.iter(|v| {
        seen.push(*v);
        false
    });
    assert!(!stopped);
    seen
}

fn wide_key(first: u8) -> [u8; 2] {
    [first, 0]
}

#[test]
fn single_key_is_minimum_and_maximum() {
    let mut ds = ArtTree::<u32>::new();
    assert_eq!(ds.insert(&[1, 2, 3], 17), None);
    let (key, value) = ds.minimum().unwrap();
    assert_eq!(key.as_slice(), &[1, 2, 3]);
    assert_eq!(*value, 17);
    let (key, value) = ds.maximum().unwrap();
    assert_eq!(key.as_slice(), &[1, 2, 3]);
    assert_eq!(*value, 17);
    assert_eq!(ds.root_kind(), NodeKind::Leaf);
}

#[test]
fn split_below_a_shared_path_keeps_both_keys() {
    let mut ds = ArtTree::<char>::new();
    assert_eq!(ds.insert(&[1, 1, 1, 1, 1], 'A'), None);
    assert_eq!(ds.insert(&[1, 1, 2, 1, 1], 'B'), None);
    assert_eq!(ds.get(&[1, 1, 1, 1, 1]), Some(&'A'));
    assert_eq!(ds.get(&[1, 1, 2, 1, 1]), Some(&'B'));
    assert_eq!(ds.get(&[1, 1, 3, 1, 1]), None);
    assert_eq!(ds.root_kind(), NodeKind::Node4);
    assert_eq!(ds.root_children(), 2);
}

#[test]
fn pop_first_then_pop_last_empties_the_tree() {
    let mut ds = ArtTree::<u32>::new();
    ds.insert(&[1, 2, 3], 17);
    ds.insert(&[1, 2, 4], 18);
    assert_eq!(ds.pop_first(), Some((vec![1, 2, 3], 17)));
    assert_eq!(ds.pop_last(), Some((vec![1, 2, 4], 18)));
    assert_eq!(ds.size(), 0);
    assert!(ds.minimum().is_none());
    assert!(ds.maximum().is_none());
    assert_eq!(ds.pop_first(), None);
    assert_eq!(ds.pop_last(), None);
    assert_eq!(ds.root_kind(), NodeKind::Empty);
}

#[test]
fn size_counts_the_keys() {
    let mut ds = ArtTree::<u32>::new();
    assert_eq!(ds.size(), 0);
    for i in 0..300u32 {
        let key = [(i % 7) as u8, (i % 11) as u8, (i % 256) as u8, (i / 256) as u8];
        assert_eq!(ds.insert(&key, i), None);
        assert_eq!(ds.size(), (i + 1) as u64);
    }
    assert_eq!(collect(&mut ds).len(), 300);
    assert_eq!(ds.insert(&[0, 0, 0, 0], 1000), Some(0));
    assert_eq!(ds.size(), 300);
    assert_eq!(ds.delete(&[9, 9, 9, 9]), None);
    assert_eq!(ds.size(), 300);
    for i in 0..300u32 {
        let key = [(i % 7) as u8, (i % 11) as u8, (i % 256) as u8, (i / 256) as u8];
        assert!(ds.delete(&key).is_some());
        assert_eq!(ds.size(), (299 - i) as u64);
    }
    assert_eq!(collect(&mut ds).len(), 0);
}

#[test]
fn iteration_ascends_by_key() {
    let mut ds = ArtTree::<u32>::new();
    let mut reference = BTreeMap::<Vec<u8>, u32>::new();
    let mut state = 7u64;
    for i in 0..2000u32 {
        let r = lcg(&mut state);
        let key = [(r % 3) as u8, ((r >> 8) % 60) as u8, ((r >> 16) % 256) as u8, (r >> 24) as u8];
        assert_eq!(ds.insert(&key, i), reference.insert(key.to_vec(), i));
    }
    let expected: Vec<u32> = reference.values().copied().collect();
    assert_eq!(collect(&mut ds), expected);
    let (least, _) = ds.minimum().unwrap();
    assert_eq!(least, reference.keys().next().unwrap());
    let (greatest, _) = ds.maximum().unwrap();
    assert_eq!(greatest, reference.keys().last().unwrap());
}

#[test]
fn iteration_stops_at_the_first_true() {
    let mut ds = ArtTree::<u32>::new();
    for i in 0..20u8 {
        ds.insert(&[i, 1], i as u32);
    }
    let mut seen = Vec::new();
    let stopped = ds.iter(|v| {
        seen.push(*v);
        *v == 2
    });
    assert!(stopped);
    assert_eq!(seen, vec![0, 1, 2]);
}

#[test]
fn iteration_over_nothing_does_not_stop() {
    let mut ds = ArtTree::<u32>::new();
    let mut calls = 0;
    let stopped = ds.iter(|_| {
        calls += 1;
        true
    });
    assert!(!stopped);
    assert_eq!(calls, 0);
}

#[test]
fn deleting_in_any_order_restores_the_empty_tree() {
    let keys: Vec<[u8; 3]> = (0..200u32)
        .map(|i| [(i % 5) as u8, (i % 40) as u8, i as u8])
        .collect();
    for stride in [1usize, 7, 11, 199] {
        let mut ds = ArtTree::<usize>::new();
        for (i, key) in keys.iter().enumerate() {
            assert_eq!(ds.insert(key, i), None);
        }
        for key in keys.iter() {
            assert!(ds.get(key).is_some());
        }
        let mut at = 0usize;
        for _ in 0..keys.len() {
            at = (at + stride) % keys.len();
            assert_eq!(ds.get(&keys[at]), Some(&at));
            assert_eq!(ds.delete(&keys[at]), Some(at));
            assert_eq!(ds.get(&keys[at]), None);
        }
        assert_eq!(ds.size(), 0);
        assert_eq!(ds.root_kind(), NodeKind::Empty);
        assert_eq!(format!("{:?}", ds), format!("{:?}", ArtTree::<usize>::new()));
    }
}

#[test]
fn storing_a_key_twice_replaces_its_value() {
    let mut ds = ArtTree::<&str>::new();
    ds.insert(&[5, 5], "other");
    assert_eq!(ds.insert(&[5, 6], "first"), None);
    let size = ds.size();
    assert_eq!(ds.insert(&[5, 6], "second"), Some("first"));
    assert_eq!(ds.size(), size);
    assert_eq!(ds.get(&[5, 6]), Some(&"second"));
    assert_eq!(ds.get(&[5, 5]), Some(&"other"));
}

#[test]
fn deleting_an_absent_key_changes_nothing() {
    let mut ds = ArtTree::<u32>::new();
    assert_eq!(ds.delete(&[1, 2, 3]), None);
    for i in 0..70u8 {
        ds.insert(&[1, 2, 3, i, 9], i as u32);
    }
    ds.insert(&[1, 2, 4, 0, 0], 1000);
    let before = format!("{:?}", ds);
    for absent in [
        vec![1u8, 2, 3, 70, 9],
        vec![1, 2, 3, 5, 8],
        vec![1, 2, 5, 0, 0],
        vec![1, 2],
        vec![],
        vec![1, 2, 3, 5],
        vec![1, 2, 3, 5, 9, 1],
        vec![2, 2, 3, 5, 9],
    ] {
        assert_eq!(ds.delete(&absent), None);
        assert_eq!(format!("{:?}", ds), before);
        assert_eq!(ds.get(&absent), None);
    }
    assert_eq!(ds.size(), 71);
}

#[test]
fn node_classes_follow_the_count() {
    let mut ds = ArtTree::<u32>::new();
    assert_eq!(ds.root_kind(), NodeKind::Empty);
    let mut expected = NodeKind::Empty;
    for n in 1..=256usize {
        ds.insert(&wide_key((n - 1) as u8), n as u32);
        expected = match n {
            1 => NodeKind::Leaf,
            2..=4 => NodeKind::Node4,
            5..=16 => NodeKind::Node16,
            17..=48 => NodeKind::Node48,
            _ => NodeKind::Node256,
        };
        assert_eq!(ds.root_kind(), expected, "after {} insertions", n);
        if n >= 2 {
            assert_eq!(ds.root_children(), n);
        }
    }
    assert_eq!(expected, NodeKind::Node256);
    for n in (0..256usize).rev() {
        assert_eq!(ds.delete(&wide_key(n as u8)), Some(n as u32 + 1));
        let expected = match n {
            0 => NodeKind::Empty,
            1 => NodeKind::Leaf,
            2..=3 => NodeKind::Node4,
            4..=12 => NodeKind::Node16,
            13..=37 => NodeKind::Node48,
            _ => NodeKind::Node256,
        };
        assert_eq!(ds.root_kind(), expected, "with {} keys left", n);
    }
}

#[test]
fn node_classes_do_not_thrash_at_a_boundary() {
    let mut ds = ArtTree::<u32>::new();
    for n in 0..49u8 {
        ds.insert(&wide_key(n), 0);
    }
    assert_eq!(ds.root_kind(), NodeKind::Node256);
    for _ in 0..3 {
        ds.delete(&wide_key(48));
        assert_eq!(ds.root_kind(), NodeKind::Node256);
        assert_eq!(ds.root_children(), 48);
        ds.insert(&wide_key(48), 0);
        assert_eq!(ds.root_kind(), NodeKind::Node256);
    }
    for n in 0..32u8 {
        ds.delete(&wide_key(n));
    }
    assert_eq!(ds.root_children(), 17);
    assert_eq!(ds.root_kind(), NodeKind::Node48);
    ds.insert(&wide_key(0), 0);
    assert_eq!(ds.root_kind(), NodeKind::Node48);
}

#[test]
fn children_of_every_class_come_out_in_byte_order() {
    for count in [2usize, 4, 5, 16, 17, 48, 49, 200, 256] {
        let mut ds = ArtTree::<u32>::new();
        let mut state = count as u64;
        let mut bytes: Vec<u8> = (0..=255u8).collect();
        for i in (1..bytes.len()).rev() {
            let j = (lcg(&mut state) % (i as u64 + 1)) as usize;
            bytes.swap(i, j);
        }
        bytes.truncate(count);
        for b in bytes.iter() {
            assert_eq!(ds.insert(&[*b, 77], *b as u32), None);
        }
        let mut sorted: Vec<u32> = bytes.iter().map(|b| *b as u32).collect();
        sorted.sort();
        assert_eq!(collect(&mut ds), sorted);
        assert_eq!(*ds.minimum().unwrap().1, sorted[0]);
        assert_eq!(*ds.maximum().unwrap().1, sorted[count - 1]);
        for b in bytes.iter() {
            assert_eq!(ds.get(&[*b, 77]), Some(&(*b as u32)));
            assert_eq!(ds.get(&[*b, 78]), None);
        }
    }
}

#[test]
fn long_paths_are_read_back_from_a_leaf() {
    let mut base = vec![9u8; 30];
    base[29] = 1;
    let mut ds = ArtTree::<u32>::new();
    assert_eq!(ds.insert(&base, 1), None);
    let mut second = base.clone();
    second[29] = 2;
    assert_eq!(ds.insert(&second, 2), None);
    // leaves the shared path at index 20, beyond the ten cached bytes
    let mut third = base.clone();
    third[20] = 3;
    assert_eq!(ds.insert(&third, 3), None);
    // leaves the shared path at index 4, inside the cache
    let mut fourth = base.clone();
    fourth[4] = 4;
    assert_eq!(ds.insert(&fourth, 4), None);
    assert_eq!(ds.size(), 4);
    assert_eq!(ds.get(&base), Some(&1));
    assert_eq!(ds.get(&second), Some(&2));
    assert_eq!(ds.get(&third), Some(&3));
    assert_eq!(ds.get(&fourth), Some(&4));
    assert_eq!(collect(&mut ds), vec![4, 3, 1, 2]);

    // a key that differs from a stored one only beyond the cache
    let mut near = base.clone();
    near[15] = 0;
    assert_eq!(ds.get(&near), None);
    assert_eq!(ds.delete(&near), None);
    assert_eq!(ds.insert(&near, 5), None);
    assert_eq!(ds.get(&near), Some(&5));
    assert_eq!(collect(&mut ds), vec![4, 5, 3, 1, 2]);

    // taking keys out merges the paths again
    assert_eq!(ds.delete(&near), Some(5));
    assert_eq!(ds.delete(&fourth), Some(4));
    assert_eq!(ds.delete(&third), Some(3));
    assert_eq!(ds.get(&base), Some(&1));
    assert_eq!(ds.get(&second), Some(&2));
    assert_eq!(ds.minimum().unwrap().0, &base);
    assert_eq!(ds.maximum().unwrap().0, &second);
    let mut late = base.clone();
    late[25] = 0;
    assert_eq!(ds.insert(&late, 6), None);
    assert_eq!(collect(&mut ds), vec![6, 1, 2]);
    assert_eq!(ds.delete(&base), Some(1));
    assert_eq!(ds.delete(&second), Some(2));
    assert_eq!(ds.pop_first(), Some((late, 6)));
    assert_eq!(ds.root_kind(), NodeKind::Empty);
}

#[test]
fn merged_paths_keep_their_true_length() {
    // [a;4] x [b;4] y ... : two levels whose paths join when the middle node goes
    let mut ds = ArtTree::<u32>::new();
    let k1 = [1u8, 1, 1, 1, 5, 2, 2, 2, 2, 2, 2, 2, 2, 7, 0];
    let k2 = [1u8, 1, 1, 1, 5, 2, 2, 2, 2, 2, 2, 2, 2, 8, 0];
    let k3 = [1u8, 1, 1, 1, 6, 0, 0, 0, 0, 0, 0, 0, 0, 0, 0];
    ds.insert(&k1, 1);
    ds.insert(&k2, 2);
    ds.insert(&k3, 3);
    assert_eq!(ds.delete(&k3), Some(3));
    assert_eq!(ds.root_kind(), NodeKind::Node4);
    assert_eq!(ds.root_children(), 2);
    assert_eq!(ds.get(&k1), Some(&1));
    assert_eq!(ds.get(&k2), Some(&2));
    assert_eq!(ds.get(&k3), None);
    let k4 = [1u8, 1, 1, 1, 5, 2, 2, 2, 2, 2, 2, 2, 3, 7, 0];
    assert_eq!(ds.insert(&k4, 4), None);
    assert_eq!(collect(&mut ds), vec![1, 2, 4]);
    assert_eq!(ds.insert(&k3, 3), None);
    assert_eq!(collect(&mut ds), vec![1, 2, 4, 3]);
}

#[test]
fn short_keys_are_looked_up_without_harm() {
    let mut ds = ArtTree::<u32>::new();
    ds.insert(&[1, 2, 3], 17);
    ds.insert(&[1, 2, 4], 18);
    for key in [vec![], vec![1u8], vec![1, 2], vec![1, 2, 3, 0], vec![2]] {
        assert_eq!(ds.get(&key), None);
        assert!(ds.get_mut(&key).is_none());
        assert_eq!(ds.delete(&key), None);
    }
    assert_eq!(ds.size(), 2);
}

#[test]
fn an_empty_key_can_be_the_only_key() {
    let mut ds = ArtTree::<u32>::new();
    assert_eq!(ds.insert(&[], 1), None);
    assert_eq!(ds.get(&[]), Some(&1));
    assert_eq!(ds.insert(&[], 2), Some(1));
    assert_eq!(ds.minimum().unwrap().0.len(), 0);
    assert_eq!(ds.delete(&[]), Some(2));
    assert_eq!(ds.size(), 0);
}

#[test]
fn values_are_changed_in_place() {
    let mut ds = ArtTree::<u32>::new();
    for i in 0..30u8 {
        ds.insert(&[i / 6, i], i as u32);
    }
    *ds.get_mut(&[2, 13]).unwrap() = 1300;
    assert_eq!(ds.get(&[2, 13]), Some(&1300));
    {
        let (key, value) = ds.minimum_mut().unwrap();
        assert_eq!(key.as_slice(), &[0, 0]);
        assert_eq!(*value, 0);
        *value = 5000;
    }
    {
        let (key, value) = ds.maximum_mut().unwrap();
        assert_eq!(key.as_slice(), &[4, 29]);
        *value += 1;
    }
    assert_eq!(ds.get(&[0, 0]), Some(&5000));
    assert_eq!(ds.get(&[4, 29]), Some(&30));
    assert_eq!(ds.size(), 30);
    assert!(ArtTree::<u32>::new().minimum_mut().is_none());
    assert!(ArtTree::<u32>::new().maximum_mut().is_none());
}

#[test]
fn byte_helpers_give_exact_results() {
    assert_eq!(common_prefix_len(&[1, 2, 3, 4], &[1, 2, 9, 4], 0), 2);
    assert_eq!(common_prefix_len(&[1, 2, 3, 4], &[1, 2, 9, 4], 1), 1);
    assert_eq!(common_prefix_len(&[1, 2, 3, 4], &[1, 2, 3], 1), 2);
    assert_eq!(common_prefix_len(&[1, 2], &[1, 2], 2), 0);
    assert!(keys_equal(&[1, 2, 3], &[1, 2, 3]));
    assert!(!keys_equal(&[1, 2, 3], &[1, 2]));
    assert!(!keys_equal(&[1, 2, 3], &[1, 2, 4]));
    assert!(keys_equal(&[], &[]));

    assert_eq!(upper_bound(&[1, 3, 5, 0], 3, 0), 0);
    assert_eq!(upper_bound(&[1, 3, 5, 0], 3, 3), 2);
    assert_eq!(upper_bound(&[1, 3, 5, 0], 3, 4), 2);
    assert_eq!(upper_bound(&[1, 3, 5, 0], 3, 9), 3);
    let mut keys = [1u8, 3, 5, 0];
    keys_insert(&mut keys, 3, 1, 2);
    assert_eq!(keys, [1, 2, 3, 5]);
    keys_remove(&mut keys, 4, 0);
    assert_eq!(keys, [2, 3, 5, 0]);
    keys_remove(&mut keys, 3, 2);
    assert_eq!(keys, [2, 3, 0, 0]);

    let mut slots: Vec<Node<u32>> = empty_slots(3);
    assert_eq!(slots.len(), 3);
    assert!(slots.iter().all(|slot| slot.is_empty()));
    pad_slots(&mut slots, 5);
    assert_eq!(slots.len(), 5);
    let taken = take_slot(&mut slots[0]);
    assert!(taken.is_empty());
}

#[test]
fn integer_keys_are_stored_most_significant_byte_first() {
    assert_eq!(u64_to_key(0x0102030405060708), [1, 2, 3, 4, 5, 6, 7, 8]);
    assert_eq!(u64_to_key(0), [0; 8]);
    assert_eq!(u64_to_key(u64::MAX), [255; 8]);
    assert_eq!(u64_to_key(123456), 123456u64.to_be_bytes());
    assert_eq!(u8_list_to_u64_key(&vec![0, 0, 0, 0, 0, 1, 226, 64]), 123456);
    assert_eq!(u8_list_to_u64_key(&vec![1, 2, 3, 4, 5, 6, 7, 8]), 0x0102030405060708);
    let mut state = 99u64;
    for _ in 0..1000 {
        let k = lcg(&mut state) ^ (lcg(&mut state) << 32);
        assert_eq!(u64_to_key(k), k.to_be_bytes());
        assert_eq!(u8_list_to_u64_key(&u64_to_key(k).to_vec()), k);
    }
}

#[test]
fn integer_keys_are_ordered_as_numbers() {
    let mut map = U64ArtMap::<u64>::new();
    let keys = [65536u64, 255, 256, 0, u64::MAX, 1 << 40, 65535, 1, (1 << 40) + 1];
    for k in keys {
        assert_eq!(map.insert(k, k + 1), None);
    }
    let mut seen = Vec::new();
    assert!(!map.iter(|v| {
        seen.push(*v - 1);
        false
    }));
    let mut sorted = keys.to_vec();
    sorted.sort();
    assert_eq!(seen, sorted);
    assert_eq!(map.minimum(), Some((0, &1)));
    assert_eq!(map.maximum().unwrap().0, u64::MAX);
    assert_eq!(map.get(&256), Some(&257));
    assert_eq!(map.get(&257), None);
    *map.get_mut(&256).unwrap() = 0;
    assert_eq!(map.get(&256), Some(&0));
    *map.minimum_mut().unwrap().1 = 11;
    *map.maximum_mut().unwrap().1 = 12;
    assert_eq!(map.pop_first(), Some((0, 11)));
    assert_eq!(map.pop_last(), Some((u64::MAX, 12)));
    assert_eq!(map.insert(1, 7), Some(2));
    assert_eq!(map.delete(1), Some(7));
    assert_eq!(map.delete(1), None);
    assert_eq!(map.minimum().unwrap().0, 255);
}

#[test]
fn integer_map_agrees_with_an_ordered_map() {
    let mut artmap = U64ArtMap::<u64>::new();
    let mut reference = BTreeMap::<u64, u64>::new();
    let mut state = 2024u64;
    for step in 0..6000u64 {
        let r = lcg(&mut state);
        let key = match r % 3 {
            0 => lcg(&mut state) % 500,
            1 => lcg(&mut state) << 20,
            _ => lcg(&mut state) ^ (lcg(&mut state) << 32),
        };
        if r % 4 == 0 {
            assert_eq!(artmap.delete(key), reference.remove(&key));
        } else {
            assert_eq!(artmap.insert(key, step), reference.insert(key, step));
        }
        assert_eq!(
            artmap.minimum().map(|entry| (entry.0, *entry.1)),
            reference.iter().next().map(|entry| (*entry.0, *entry.1))
        );
        assert_eq!(
            artmap.maximum().map(|entry| (entry.0, *entry.1)),
            reference.iter().last().map(|entry| (*entry.0, *entry.1))
        );
        if step % 200 == 0 {
            let mut seen = Vec::new();
            artmap.iter(|v| {
                seen.push(*v);
                false
            });
            let expected: Vec<u64> = reference.values().copied().collect();
            assert_eq!(seen, expected);
        }
    }
    while let Some((key, value)) = artmap.pop_first() {
        assert_eq!(reference.pop_first(), Some((key, value)));
    }
    assert!(reference.is_empty());
}

#[test]
fn a_copy_lives_apart_from_its_source() {
    let mut ds = ArtTree::<String>::new();
    for i in 0..60u8 {
        ds.insert(&[i % 3, i, 1], i.to_string());
    }
    let mut copy = ds.clone();
    assert_eq!(format!("{:?}", copy), format!("{:?}", ds));
    assert_eq!(copy.size(), 60);
    assert_eq!(copy.delete(&[0, 0, 1]), Some("0".to_string()));
    *copy.get_mut(&[1, 1, 1]).unwrap() = "changed".to_string();
    copy.insert(&[9, 9, 9], "new".to_string());
    assert_eq!(ds.get(&[0, 0, 1]), Some(&"0".to_string()));
    assert_eq!(ds.get(&[1, 1, 1]), Some(&"1".to_string()));
    assert_eq!(ds.get(&[9, 9, 9]), None);
    assert_eq!(ds.size(), 60);
    assert_eq!(copy.size(), 60);

    let mut map = U64ArtMap::<u32>::new();
    map.insert(5, 50);
    map.insert(6, 60);
    let mut other = map.clone();
    other.delete(5);
    assert_eq!(map.get(&5), Some(&50));
    assert_eq!(other.get(&5), None);
    assert_eq!(other.get(&6), Some(&60));
}

#[test]
fn a_key_that_is_a_prefix_of_another_is_handed_back() {
    let mut ds = ArtTree::<u32>::new();
    assert!(ds.admits_key(&[1, 2]));
    assert_eq!(ds.try_insert(&[1, 2, 3], 1), Ok(None));
    assert_eq!(ds.try_insert(&[1, 2, 4], 2), Ok(None));
    assert_eq!(ds.try_insert(&[1, 2, 3], 3), Ok(Some(1)));
    let before = format!("{:?}", ds);
    for key in [vec![], vec![1u8], vec![1, 2], vec![1, 2, 3, 0], vec![1, 2, 4, 4, 4]] {
        assert!(!ds.admits_key(&key));
        assert_eq!(ds.try_insert(&key, 9), Err(9));
        assert_eq!(format!("{:?}", ds), before);
    }
    for key in [vec![2u8], vec![1, 3], vec![1, 2, 5], vec![0, 2, 3, 4, 5], vec![1, 2, 3]] {
        assert!(ds.admits_key(&key));
    }
    assert_eq!(ds.size(), 2);

    let mut long = ArtTree::<u32>::new();
    let base = [7u8; 20];
    let mut other = base;
    other[19] = 8;
    long.insert(&base, 1);
    long.insert(&other, 2);
    assert!(!long.admits_key(&base[..19]));
    assert!(!long.admits_key(&base[..12]));
    assert!(!long.admits_key(&base[..3]));
    let mut longer = base.to_vec();
    longer.push(0);
    assert!(!long.admits_key(&longer));
    let mut apart = base;
    apart[15] = 0;
    assert!(long.admits_key(&apart));
    assert!(long.admits_key(&apart[..16]));

    let mut map = U64ArtMap::<u32>::new();
    assert_eq!(map.try_insert(1, 10), Ok(None));
    assert_eq!(map.try_insert(1, 11), Ok(Some(10)));
    assert_eq!(map.get(&1), Some(&11));
}
