use layered_forest::arena::Ref;
use layered_forest::forest::{Forest1, Forest2, Node, Ref2, TowardsRootIter};
use layered_forest::merge::merge_no_transform;

fn towards_root_items<'a, R, A>(mut iter: TowardsRootIter<R, A>) -> Vec<&'a &'static str> where
    R: Copy,
    A: Fn(R) -> Option<Node<&'a &'static str, R>>,
{
    let mut out = Vec::new();
    while let Some(node) = iter.next() {
        out.push(node.item);
    }
    out
}

#[test]
fn direct_access() {
    let mut forest1 = Forest1::new(0);

    let root = forest1.make_root("root");
    assert_eq!(forest1.get(root).map(|node| node.item), Some(&"root"));
    assert_eq!(forest1.get(root).map(|node| node.parent), Some(None));
    assert_eq!(forest1.get(root).map(|node| node.depth), Some(0));

    let child_a = forest1.make_node(root, "child_a");
    assert_eq!(forest1.get(child_a).map(|node| node.item), Some(&"child_a"));
    assert_eq!(forest1.get(child_a).map(|node| node.parent), Some(Some(root)));
    assert_eq!(forest1.get(child_a).map(|node| node.depth), Some(1));

    let child_b = forest1.make_node(root, "child_b");
    assert_eq!(forest1.get(child_b).map(|node| node.item), Some(&"child_b"));
    assert_eq!(forest1.get(child_b).map(|node| node.parent), Some(Some(root)));
    assert_eq!(forest1.get(child_b).map(|node| node.depth), Some(1));

    let child_c = forest1.make_node(child_a, "child_c");
    assert_eq!(forest1.get(child_c).map(|node| node.item), Some(&"child_c"));
    assert_eq!(forest1.get(child_c).map(|node| node.parent), Some(Some(child_a)));
    assert_eq!(forest1.get(child_c).map(|node| node.depth), Some(2));

    let mut forest2 = Forest2::new(1);

    let root2 = forest2.make_root("root2");
    assert_eq!(forest2.get(|r| forest1.get(r), root2).map(|node| node.item), Some(&"root2"));
    assert_eq!(forest2.get(|r| forest1.get(r), root2).map(|node| node.parent), Some(None));
    assert_eq!(forest2.get(|r| forest1.get(r), root2).map(|node| node.depth), Some(0));

    let child_d = forest2.make_node(|r| forest1.get(r), root2, "child_d");
    assert_eq!(forest2.get(|r| forest1.get(r), child_d).map(|node| node.item), Some(&"child_d"));
    assert_eq!(
        forest2.get(|r| forest1.get(r), child_d).map(|node| node.parent),
        Some(Some(root2)),
    );
    assert_eq!(forest2.get(|r| forest1.get(r), child_d).map(|node| node.depth), Some(1));

    let child_c_ext = forest2.external_ref(child_c);
    let child_e = forest2.make_node(|r| forest1.get(r), child_c_ext, "child_e");
    assert_eq!(forest2.get(|r| forest1.get(r), child_e).map(|node| node.item), Some(&"child_e"));
    assert_eq!(
        forest2.get(|r| forest1.get(r), child_e).map(|node| node.parent),
        Some(Some(child_c_ext)),
    );
    assert_eq!(forest2.get(|r| forest1.get(r), child_e).map(|node| node.depth), Some(3));

    let iter = TowardsRootIter::new(|rr| forest2.get(|r| forest1.get(r), rr), child_e);
    assert_eq!(towards_root_items(iter), vec![&"child_e", &"child_c", &"child_a", &"root"]);
}

#[test]
fn layers_access_macro() {
    let mut forest1 = Forest1::new(0);
    let mut forest2 = Forest2::new(1);

    let root = forest1.make_root("root");
    assert_eq!(forest1.get(root).map(|node| node.item), Some(&"root"));

    let root2 = forest2.make_root("root2");
    assert_eq!(forest2.get(|r| forest1.get(r), root2).map(|node| node.item), Some(&"root2"));

    let root_ext = forest2.external_ref(root);
    let child_a = forest2.make_node(|r| forest1.get(r), root_ext, "child a");
    assert_eq!(forest2.get(|r| forest1.get(r), child_a).map(|node| node.item), Some(&"child a"));

    forest2.get_mut(|r| forest1.get_mut(r), child_a).map(|item| *item = "other child");
    assert_eq!(
        forest2.get(|r| forest1.get(r), child_a).map(|node| node.item),
        Some(&"other child"),
    );

    let child_b = forest2.make_node(|r| forest1.get(r), child_a, "child b");
    assert_eq!(forest2.get(|r| forest1.get(r), child_b).map(|node| node.item), Some(&"child b"));

    {
        let iter = TowardsRootIter::new(|rr| forest2.get(|r| forest1.get(r), rr), child_b);
        assert_eq!(towards_root_items(iter), vec![&"child b", &"other child", &"root"]);
    }
    {
        let mut items: Vec<_> = forest2.local_iter().into_iter().map(|p| p.1).collect();
        items.extend(forest1.local_iter().into_iter().map(|p| p.1));
        items.sort();
        assert_eq!(items, vec![&"child b", &"other child", &"root", &"root2"]);
    }

    let mut maybe_node_ref = Some(child_b);
    while let Some(node_ref) = maybe_node_ref {
        maybe_node_ref = forest2.get(|r| forest1.get(r), node_ref).and_then(|node| node.parent);
        forest2.remove(|r| forest1.remove(r), node_ref);
    }
    assert_eq!(forest2.get(|r| forest1.get(r), child_b).map(|node| node.item), None);
    assert_eq!(forest2.get(|r| forest1.get(r), child_a).map(|node| node.item), None);
    assert_eq!(forest2.get(|r| forest1.get(r), root_ext).map(|node| node.item), None);
    assert_eq!(forest2.get(|r| forest1.get(r), root2).map(|node| node.item), Some(&"root2"));
}

#[test]
fn merge_aflat_forest1() {
    let mut forest1_a = Forest1::new(0);
    let root_a = forest1_a.make_root("root a");
    let _child_a_a = forest1_a.make_node(root_a, "child_a a");
    let _child_b_a = forest1_a.make_node(root_a, "child_b a");

    let mut forest1_b = Forest1::new(1);
    let root_b = forest1_b.make_root("root b");
    let child_a_b = forest1_b.make_node(root_b, "child_a b");
    let _child_b_b = forest1_b.make_node(child_a_b, "child_b b");

    let forest1_a = merge_no_transform(forest1_b.merge_aflat(forest1_a));

    let mut items: Vec<_> = forest1_a.local_iter();
    items.sort_by_key(|item| item.1);
    let verify = vec![&"child_a a", &"child_a b", &"child_b a", &"child_b b", &"root a",
        &"root b"];
    assert_eq!(items.len(), verify.len());
    for ((set_ref, item), verify_item) in items.into_iter().zip(verify) {
        assert_eq!(item, verify_item);
        assert_eq!(forest1_a.get(set_ref).map(|node| node.item), Some(item));
    }
}

#[test]
fn merge_aflat_forest2() {
    let forest1: Forest1<&'static str> = Forest1::new(0);
    let mut forest2_a = Forest2::new(1);
    let root_a = forest2_a.make_root("root a");
    let _child_a_a = forest2_a.make_node(|r| forest1.get(r), root_a, "child_a a");
    let _child_b_a = forest2_a.make_node(|r| forest1.get(r), root_a, "child_b a");

    let mut forest2_b = Forest2::new(2);
    let root_b = forest2_b.make_root("root b");
    let child_a_b = forest2_b.make_node(|r| forest1.get(r), root_b, "child_a b");
    let _child_b_b = forest2_b.make_node(|r| forest1.get(r), child_a_b, "child_b b");

    let forest2_a = merge_no_transform(forest2_b.merge_aflat(forest2_a));

    let mut items: Vec<_> = forest2_a.local_iter();
    items.sort_by_key(|item| item.1);
    let verify = vec![&"child_a a", &"child_a b", &"child_b a", &"child_b b", &"root a",
        &"root b"];
    assert_eq!(items.len(), verify.len());
    for ((set_ref, item), verify_item) in items.into_iter().zip(verify) {
        assert_eq!(item, verify_item);
        assert_eq!(forest2_a.get(|r| forest1.get(r), set_ref).map(|node| node.item), Some(item));
    }
}

#[test]
fn merge_down_forest1() {
    let mut forest1 = Forest1::new(0);
    let root1 = forest1.make_root("root1");
    let child1_a = forest1.make_node(root1, "child1 a");
    let _child1_b = forest1.make_node(root1, "child1 b");

    let mut forest2 = Forest2::new(1);
    let root2 = forest2.make_root("root2");
    let child2_a = forest2.make_node(|r| forest1.get(r), root2, "child2 a");
    let _child2_b = forest2.make_node(|r| forest1.get(r), child2_a, "child2 b");
    let child1_a2 = forest2.external_ref(child1_a);
    let _child2_c = forest2.make_node(|r| forest1.get(r), child1_a2, "child2 c");

    let forest1 = merge_no_transform(forest2.merge_down(forest1));

    let mut items: Vec<_> = forest1.local_iter();
    items.sort_by_key(|item| item.1);
    let verify = vec![&"child1 a", &"child1 b", &"child2 a", &"child2 b", &"child2 c", &"root1",
        &"root2"];
    assert_eq!(items.len(), verify.len());
    for ((set_ref, item), verify_item) in items.iter().cloned().zip(verify) {
        assert_eq!(item, verify_item);
        assert_eq!(forest1.get(set_ref).map(|node| node.item), Some(item));
    }
    let child2_c = items[4].0;
    let path = towards_root_items(TowardsRootIter::new(|r| forest1.get(r), child2_c));
    assert_eq!(path, vec![&"child2 c", &"child1 a", &"root1"]);
}

#[test]
fn merge_down_forest2() {
    let forest0: Forest1<&'static str> = Forest1::new(0);
    let mut forest1 = Forest2::new(1);
    let root1 = forest1.make_root("root1");
    let child1_a = forest1.make_node(|r| forest0.get(r), root1, "child1 a");
    let _child1_b = forest1.make_node(|r| forest0.get(r), root1, "child1 b");

    let mut forest2 = Forest2::new(2);
    let root2 = forest2.make_root("root2");
    let child2_a = forest2.make_node(
        |r| forest1.get(|rr| forest0.get(rr), r),
        root2,
        "child2 a",
    );
    let _child2_b = forest2.make_node(
        |r| forest1.get(|rr| forest0.get(rr), r),
        child2_a,
        "child2 b",
    );
    let child1_a2 = forest2.external_ref(child1_a);
    let _child2_c = forest2.make_node(
        |r| forest1.get(|rr| forest0.get(rr), r),
        child1_a2,
        "child2 c",
    );

    let forest1 = merge_no_transform(forest2.merge_down(forest1));

    let mut items: Vec<_> = forest1.local_iter();
    items.extend(forest0.local_iter().into_iter().map(|(r, item)| (Ref2::External(r), item)));
    items.sort_by_key(|item| item.1);
    let verify = vec![&"child1 a", &"child1 b", &"child2 a", &"child2 b", &"child2 c", &"root1",
        &"root2"];
    assert_eq!(items.len(), verify.len());
    for ((set_ref, item), verify_item) in items.iter().cloned().zip(verify) {
        assert_eq!(item, verify_item);
        assert_eq!(forest1.get(|r| forest0.get(r), set_ref).map(|node| node.item), Some(item));
    }
    let child2_c = items[4].0;
    let path = towards_root_items(
        TowardsRootIter::new(|rr| forest1.get(|r| forest0.get(r), rr), child2_c),
    );
    assert_eq!(path, vec![&"child2 c", &"child1 a", &"root1"]);
}

#[test]
fn merge_down_forest21() {
    let mut forest0 = Forest1::new(0);
    let root0 = forest0.make_root("root0");
    let _child0_a = forest0.make_node(root0, "child0 a");
    let child0_b = forest0.make_node(root0, "child0 b");

    let mut forest1 = Forest2::new(1);
    let root1 = forest1.make_root("root1");
    let child0_b = forest1.external_ref(child0_b);
    let child1_a = forest1.make_node(|r| forest0.get(r), child0_b, "child1 a");
    let _child1_b = forest1.make_node(|r| forest0.get(r), root1, "child1 b");

    let mut forest2 = Forest2::new(2);
    let root2 = forest2.make_root("root2");
    let child2_a = forest2.make_node(
        |r| forest1.get(|rr| forest0.get(rr), r),
        root2,
        "child2 a",
    );
    let _child2_b = forest2.make_node(
        |r| forest1.get(|rr| forest0.get(rr), r),
        child2_a,
        "child2 b",
    );
    let child1_a2 = forest2.external_ref(child1_a);
    let _child2_c = forest2.make_node(
        |r| forest1.get(|rr| forest0.get(rr), r),
        child1_a2,
        "child2 c",
    );

    let forest1 = merge_no_transform(forest2.merge_down(forest1));
    let forest0 = merge_no_transform(forest1.merge_down(forest0));

    let mut items: Vec<_> = forest0.local_iter();
    items.sort_by_key(|item| item.1);
    let verify = vec![&"child0 a", &"child0 b", &"child1 a", &"child1 b", &"child2 a",
        &"child2 b", &"child2 c", &"root0", &"root1", &"root2"];
    assert_eq!(items.len(), verify.len());
    for ((set_ref, item), verify_item) in items.iter().cloned().zip(verify) {
        assert_eq!(item, verify_item);
        assert_eq!(forest0.get(set_ref).map(|node| node.item), Some(item));
    }
    let child2_c = items[6].0;
    let path = towards_root_items(TowardsRootIter::new(|r| forest0.get(r), child2_c));
    assert_eq!(path, vec![&"child2 c", &"child1 a", &"child0 b", &"root0"]);
}

#[test]
fn par_iter_forest21() {
    let mut forest0 = Forest1::new(0);
    let root0 = forest0.make_root("root0");
    let _child0_a = forest0.make_node(root0, "child0 a");
    let child0_b = forest0.make_node(root0, "child0 b");

    let mut forest1 = Forest2::new(1);
    let root1 = forest1.make_root("root1");
    let child0_b = forest1.external_ref(child0_b);
    let child1_a = forest1.make_node(|r| forest0.get(r), child0_b, "child1 a");
    let _child1_b = forest1.make_node(|r| forest0.get(r), root1, "child1 b");

    let mut forest2 = Forest2::new(2);
    let root2 = forest2.make_root("root2");
    let child2_a = forest2.make_node(
        |r| forest1.get(|rr| forest0.get(rr), r),
        root2,
        "child2 a",
    );
    let _child2_b = forest2.make_node(
        |r| forest1.get(|rr| forest0.get(rr), r),
        child2_a,
        "child2 b",
    );
    let child1_a2 = forest2.external_ref(child1_a);
    let _child2_c = forest2.make_node(
        |r| forest1.get(|rr| forest0.get(rr), r),
        child1_a2,
        "child2 c",
    );

    let mut items: Vec<_> = forest2.local_par_iter().into_iter().map(|p| p.1).collect();
    items.extend(forest1.local_par_iter().into_iter().map(|p| p.1));
    items.extend(forest0.local_par_iter().into_iter().map(|p| p.1));
    items.sort();
    assert_eq!(
        items,
        vec![
            &"child0 a", &"child0 b", &"child1 a", &"child1 b", &"child2 a", &"child2 b",
            &"child2 c", &"root0", &"root1", &"root2",
        ],
    );
}

#[test]
fn towards_root_exact_length() {
    // A two-layer stack: "child" sits under "root" in the base forest, and
    // the stacked layer adds "root2" plus a node whose parent is an external
    // reference to "child".
    let mut forest1 = Forest1::new(0);
    let root = forest1.make_root("root");
    let child = forest1.make_node(root, "child");
    assert_eq!(forest1.get(child).map(|node| node.depth), Some(1));

    let mut forest2 = Forest2::new(1);
    let root2 = forest2.make_root("root2");
    assert_eq!(forest2.get(|r| forest1.get(r), root2).map(|node| node.depth), Some(0));

    let child_ext = forest2.external_ref(child);
    let new_node = forest2.make_node(|r| forest1.get(r), child_ext, "new-node");
    assert_eq!(forest2.get(|r| forest1.get(r), new_node).map(|node| node.depth), Some(2));

    let iter = TowardsRootIter::new(|rr| forest2.get(|r| forest1.get(r), rr), new_node);
    assert_eq!(iter.size_hint(), (3, Some(3)));
    let iter = TowardsRootIter::new(|rr| forest2.get(|r| forest1.get(r), rr), new_node);
    assert_eq!(iter.count(), 3);
    let iter = TowardsRootIter::new(|rr| forest2.get(|r| forest1.get(r), rr), new_node);
    assert_eq!(towards_root_items(iter), vec![&"new-node", &"child", &"root"]);
}

#[test]
fn merge_aflat_keeps_parent_chains() {
    // Forest A: one root with two children; forest B: one root with one
    // child that has its own child.  After merging B into A, all six items
    // are present and the walk from B's deepest node still reaches B's own
    // root, unaffected by the relocation.
    let mut forest_a = Forest1::new(0);
    let root_a = forest_a.make_root("root a");
    forest_a.make_node(root_a, "left a");
    forest_a.make_node(root_a, "right a");

    let mut forest_b = Forest1::new(1);
    let root_b = forest_b.make_root("root b");
    let mid_b = forest_b.make_node(root_b, "mid b");
    forest_b.make_node(mid_b, "deep b");

    let merged = merge_no_transform(forest_b.merge_aflat(forest_a));
    assert_eq!(merged.len(), 6);

    let deep = merged
        .local_iter()
        .into_iter()
        .find(|p| *p.1 == "deep b")
        .map(|p| p.0)
        .unwrap();
    let path = towards_root_items(TowardsRootIter::new(|r| merged.get(r), deep));
    assert_eq!(path, vec![&"deep b", &"mid b", &"root b"]);
}

#[test]
fn merge_aflat_empty_source() {
    let mut forest_a = Forest1::new(0);
    let root_a = forest_a.make_root("root a");
    forest_a.make_node(root_a, "child a");

    let forest_b: Forest1<&'static str> = Forest1::new(1);
    let merged = merge_no_transform(forest_b.merge_aflat(forest_a));
    assert_eq!(merged.len(), 2);
    assert_eq!(merged.get(root_a).map(|node| node.item), Some(&"root a"));
}

#[test]
fn merge_aflat_empty_target() {
    let forest_a: Forest1<&'static str> = Forest1::new(0);

    let mut forest_b = Forest1::new(1);
    let root_b = forest_b.make_root("root b");
    forest_b.make_node(root_b, "child b");

    let merged = merge_no_transform(forest_b.merge_aflat(forest_a));
    assert_eq!(merged.len(), 2);
    let child = merged
        .local_iter()
        .into_iter()
        .find(|p| *p.1 == "child b")
        .map(|p| p.0)
        .unwrap();
    let path = towards_root_items(TowardsRootIter::new(|r| merged.get(r), child));
    assert_eq!(path, vec![&"child b", &"root b"]);
}

#[test]
fn make_node_falls_back_to_root_on_dangling_parent() {
    let mut forest = Forest1::new(0);
    let root = forest.make_root("root");
    let child = forest.make_node(root, "child");
    forest.remove(child).unwrap();
    // The parent handle is stale now: the new node silently becomes a root.
    let orphan = forest.make_node(child, "orphan");
    let node = forest.get(orphan).unwrap();
    assert_eq!(node.parent, None);
    assert_eq!(node.depth, 0);
}
