use std::collections::{HashMap, HashSet};

use rand::Rng;
use rand::seq::SliceRandom;

use layered_forest::arena::{Arena, UidCounter};
use layered_forest::merge::{InProgressMerger, InitMerger, MergeState};

#[test]
fn add_remove_10000() {
    let mut set = Arena::new(0);
    let mut verify = HashMap::new();
    let mut rng = rand::thread_rng();
    for _ in 0..10000 {
        let item: u64 = rng.gen();
        let set_ref = set.insert(item);
        verify.insert(item, set_ref);
    }
    for (item, &set_ref) in verify.iter() {
        let mut item = *item;
        assert_eq!(set.get(set_ref), Some(&item));
        assert_eq!(set.get_mut(set_ref), Some(&mut item));
        assert_eq!(set.remove(set_ref), Some(item));
    }
    for (&_, &set_ref) in verify.iter() {
        assert_eq!(set.remove(set_ref), None);
        assert_eq!(set.get(set_ref), None);
        assert_eq!(set.get_mut(set_ref), None);
    }
}

#[test]
fn add_remove_loop_10000() {
    let mut set = Arena::new(0);
    let mut inserted = Vec::new();
    let mut removed = Vec::new();
    let mut total = 0;
    let mut rng = rand::thread_rng();
    for item in 0..100000 {
        match rng.gen_range(0..10) {
            0..=5 => {
                let set_ref = set.insert(item);
                inserted.push((item, set_ref));
                total += 1;
                assert_eq!(set.len(), total);
            },
            6..=7 if !inserted.is_empty() => {
                let index = rng.gen_range(0..inserted.len());
                let (item, set_ref) = inserted.swap_remove(index);
                assert_eq!(set.remove(set_ref), Some(item));
                removed.push(set_ref);
                total -= 1;
                assert_eq!(set.len(), total);
            },
            8..=9 if !removed.is_empty() => {
                let index = rng.gen_range(0..removed.len());
                let set_ref = removed[index];
                assert_eq!(set.remove(set_ref), None);
                assert_eq!(set.len(), total);
            },
            _ => (),
        }
    }
    let sample_table: HashSet<_> = set.iter().into_iter().collect();
    for &(ref item, set_ref) in inserted.iter() {
        assert!(sample_table.contains(&(set_ref, item)));
    }
    let sample_table: HashSet<_> = inserted.iter().collect();
    for (set_ref, &item) in set.iter() {
        assert!(sample_table.contains(&(item, set_ref)));
    }
}

#[test]
fn add_remove_consume_10000() {
    let mut set_a: Arena<u64> = Arena::new(0);
    let mut set_b: Arena<u32> = Arena::new(1);
    let mut inserted = Vec::new();

    let mut rng = rand::thread_rng();
    for _ in 0..10000 {
        inserted.push((0, set_a.insert(rng.gen())));
        inserted.push((1, set_b.insert(rng.gen())));
    }
    inserted.shuffle(&mut rng);
    for _ in 0..2500 {
        match inserted.pop() {
            Some((0, set_ref)) => {
                set_a.remove(set_ref).unwrap();
            },
            Some((1, set_ref)) => {
                set_b.remove(set_ref).unwrap();
            },
            Some((_, _)) => unreachable!(),
            None => (),
        }
    }

    let mut verify = HashMap::new();
    let mut table = HashSet::new();
    for (idx, set_ref) in inserted {
        table.insert((idx, set_ref));
        if idx == 0 {
            verify.insert(set_ref, set_a.get(set_ref).unwrap().clone());
        }
    }

    let merge_init = set_a.merge(set_b);
    let mut merge_step = merge_init.merge_start();
    let set_a = loop {
        match merge_step {
            MergeState::Finish { merged, empty: _ } => break merged,
            MergeState::Continue { item_ref, item, next } => {
                assert!(table.remove(&(1, item_ref)));
                let transformed_item = item as u64;
                let transformed_ref = next.ref_transform(item_ref).unwrap();
                table.insert((0, transformed_ref));
                verify.insert(transformed_ref, transformed_item);
                merge_step = next.proceed(transformed_item);
            },
        }
    };

    for (idx, ref_a) in table {
        assert_eq!(idx, 0);
        let item_a = set_a.get(ref_a);
        let item_a_verify = verify.get(&ref_a);
        assert_eq!(item_a, item_a_verify);
    }
}

#[test]
fn wrong_set_ref() {
    let mut uids = UidCounter::new();
    let mut set_a = Arena::new(uids.fresh_uid());
    let mut set_b = Arena::new(uids.fresh_uid());
    let set_a_ref = set_a.insert("set_a item");
    let set_b_ref = set_b.insert("set_b item");
    assert_eq!(set_a.get(set_a_ref), Some(&"set_a item"));
    assert_eq!(set_b.get(set_b_ref), Some(&"set_b item"));
    assert_eq!(set_a.get(set_b_ref), None);
    assert_eq!(set_b.get(set_a_ref), None);
}

#[test]
fn slot_reuse_never_aliases() {
    let mut set = Arena::new(0);
    let handle_a = set.insert("a");
    let handle_b = set.insert("b");
    let handle_c = set.insert("c");
    assert_eq!(set.remove(handle_b), Some("b"));
    assert_eq!(set.get(handle_b), None);
    assert_eq!(set.get(handle_a), Some(&"a"));
    assert_eq!(set.get(handle_c), Some(&"c"));
    // The freed slot is reused, but under a fresh handle: the stale one
    // still resolves to nothing.
    let handle_d = set.insert("d");
    assert_ne!(handle_d, handle_b);
    assert_eq!(set.get(handle_d), Some(&"d"));
    assert_eq!(set.get(handle_b), None);
    assert_eq!(set.len(), 3);
}

#[test]
fn iter_refs_values_enumerate_live_items() {
    let mut set = Arena::new(0);
    let ra = set.insert(10u64);
    let rb = set.insert(20u64);
    let rc = set.insert(30u64);
    set.remove(rb).unwrap();
    let pairs = set.iter();
    assert_eq!(pairs.len(), 2);
    assert_eq!(pairs[0], (ra, &10));
    assert_eq!(pairs[1], (rc, &30));
    assert_eq!(set.refs(), vec![ra, rc]);
    assert_eq!(set.values(), vec![&10, &30]);
    assert_eq!(set.serial(), 3);
}

#[test]
fn par_iter_matches_iter() {
    let mut set = Arena::new(0);
    let mut expected = Vec::new();
    for i in 0..100u64 {
        let r = set.insert(i);
        if i % 3 == 0 {
            set.remove(r).unwrap();
        } else {
            expected.push((r, i));
        }
    }
    let mut par: Vec<(_, u64)> = set.par_iter().into_iter().map(|(r, v)| (r, *v)).collect();
    par.sort_by_key(|p| p.1);
    assert_eq!(par, expected);
}

#[test]
fn uid_counter_is_monotonic() {
    let mut uids = UidCounter::new();
    let a = uids.fresh_uid();
    let b = uids.fresh_uid();
    let c = uids.fresh_uid();
    assert!(a < b && b < c);
}

#[test]
fn clear_keeps_stale_handles_stale() {
    let mut set = Arena::new(0);
    let ra = set.insert("a");
    set.clear();
    assert_eq!(set.len(), 0);
    assert_eq!(set.get(ra), None);
    let rb = set.insert("b");
    assert_ne!(ra, rb);
    assert_eq!(set.get(ra), None);
    assert_eq!(set.get(rb), Some(&"b"));
}
