use std::collections::HashMap;

use rand::Rng;

use layered_forest::dll::List;

fn collected<T: Clone>(list: &List<T>) -> Vec<T> {
    let mut out = Vec::new();
    let mut iter = list.iter();
    while let Some(item) = iter.next() {
        out.push(item.clone());
    }
    out
}

#[test]
fn remove_head() {
    let mut list = List::new(0);
    let _ref_a = list.prepend("a");
    let _ref_b = list.prepend("b");
    let ref_c = list.prepend("c");
    assert_eq!(collected(&list), vec!["c", "b", "a"]);
    assert_eq!(list.remove(ref_c), Some("c"));
    assert_eq!(collected(&list), vec!["b", "a"]);
    assert_eq!(list.len(), collected(&list).len());
}

#[test]
fn remove_mid() {
    let mut list = List::new(0);
    let _ref_a = list.prepend("a");
    let ref_b = list.prepend("b");
    let _ref_c = list.prepend("c");
    assert_eq!(collected(&list), vec!["c", "b", "a"]);
    assert_eq!(list.remove(ref_b), Some("b"));
    assert_eq!(collected(&list), vec!["c", "a"]);
    assert_eq!(list.len(), collected(&list).len());
}

#[test]
fn remove_tail() {
    let mut list = List::new(0);
    let ref_a = list.prepend("a");
    let _ref_b = list.prepend("b");
    let _ref_c = list.prepend("c");
    assert_eq!(collected(&list), vec!["c", "b", "a"]);
    assert_eq!(list.remove(ref_a), Some("a"));
    assert_eq!(collected(&list), vec!["c", "b"]);
    assert_eq!(list.len(), collected(&list).len());
}

#[test]
fn complex() {
    let mut list = List::new(0);
    let _ref_a = list.prepend("a");
    let ref_b = list.prepend("b");
    let _ref_c = list.prepend("c");
    assert_eq!(collected(&list), vec!["c", "b", "a"]);
    assert_eq!(list.remove(ref_b), Some("b"));
    assert_eq!(collected(&list), vec!["c", "a"]);
    assert_eq!(list.remove(ref_b), None);
    assert_eq!(collected(&list), vec!["c", "a"]);
    let ref_b = list.prepend("b");
    assert_eq!(collected(&list), vec!["b", "c", "a"]);
    assert_eq!(list.len(), collected(&list).len());
    assert_eq!(list.remove(ref_b), Some("b"));
    assert_eq!(collected(&list), vec!["c", "a"]);
}

#[test]
fn stress() {
    let mut list = List::new(0);
    let mut table = HashMap::new();
    let mut refs = Vec::new();
    let mut rng = rand::thread_rng();

    for _ in 0..16384 {
        let choice = rng.gen_range(0..100);
        if choice < 66 {
            let item: u64 = rng.gen();
            let link_ref = list.prepend(item);
            table.insert(link_ref, item);
            refs.push(link_ref);
        } else if !refs.is_empty() {
            let index = rng.gen_range(0..refs.len());
            let link_ref = refs.swap_remove(index);
            let item = list.remove(link_ref).unwrap();
            assert_eq!(table.remove(&link_ref), Some(item));
        }
    }
    let mut list_items: Vec<_> = collected(&list);
    list_items.sort();
    let mut table_items: Vec<_> = table.values().cloned().collect();
    table_items.sort();
    assert_eq!(list_items, table_items);
}

#[test]
fn pop_front_drains_in_order() {
    let mut list = List::new(7);
    list.prepend(1u32);
    list.prepend(2u32);
    list.prepend(3u32);
    assert_eq!(list.pop_front(), Some(3));
    assert_eq!(list.pop_front(), Some(2));
    assert_eq!(list.pop_front(), Some(1));
    assert_eq!(list.pop_front(), None);
    assert!(list.is_empty());
}
