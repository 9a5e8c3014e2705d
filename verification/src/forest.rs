//! Trees stored in a generational arena, stacked in layers.  A layer's
//! nodes may parent onto nodes of the layer below through an `External`
//! reference; the layer below is never stored, only consulted through an
//! accessor the caller supplies at each call.

use vstd::prelude::*;

use crate::arena::{Arena, Ref, SetsInitMerger, SetsInProgressMerger};
use crate::merge::{
    MergeState,
    InitMerger,
    InProgressMerger,
    merge_state_inv,
    entries_map,
    entries_distinct,
    lemma_merge_completeness,
};

verus! {

/// One tree node: a payload, an optional parent reference, and the depth
/// the node had when it was created (`0` for roots).  The depth is cached,
/// not recomputed; later surgery on the parent chain does not update it.
pub struct Node<T, R> {
    pub item: T,
    pub parent: Option<R>,
    pub depth: usize,
}

/// A self-contained forest: every parent reference points into this same
/// forest.
pub struct Forest1<T> {
    nodes: Arena<Node<T, Ref>>,
}

impl<T> Forest1<T> {
    /// The forest's contents: a map from each valid node handle to its node.
    pub closed spec fn nodes(self) -> Map<Ref, Node<T, Ref>> {
        self.nodes.items()
    }

    pub closed spec fn wf(self) -> bool {
        self.nodes.wf()
    }

    pub closed spec fn can_insert(self) -> bool {
        self.nodes.can_insert()
    }

    pub closed spec fn spec_len(self) -> int {
        self.nodes.spec_len()
    }

    pub closed spec fn spec_serial(self) -> u64 {
        self.nodes.spec_serial()
    }

    /// The depth bookkeeping is consistent: every node's parent reference
    /// was issued by this forest (never by a later insertion), a node whose
    /// parent still resolves sits one level below it, and a parentless node
    /// is a root at depth `0`.
    pub open spec fn depth_ok(self) -> bool {
        forall|r: Ref| #[trigger]
            self.nodes().contains_key(r) ==> ({
                let n = self.nodes()[r];
                match n.parent {
                    Some(p) => p.serial() <= self.spec_serial() && (self.nodes().contains_key(p)
                        ==> n.depth == self.nodes()[p].depth + 1),
                    None => n.depth == 0,
                }
            })
    }

    /// Creates an empty forest owning the arena identity `uid`.
    pub fn new(uid: u64) -> (r: Forest1<T>)
        ensures
            r.wf(),
            r.can_insert(),
            r.nodes() == Map::<Ref, Node<T, Ref>>::empty(),
            r.spec_serial() == 0,
            r.spec_slots() == 0,
            r.depth_ok(),
    {
        Forest1 { nodes: Arena::new(uid) }
    }

    /// Creates an empty forest with at least `capacity` slots preallocated.
    pub fn with_capacity(uid: u64, capacity: usize) -> (r: Forest1<T>)
        ensures
            r.wf(),
            r.can_insert(),
            r.nodes() == Map::<Ref, Node<T, Ref>>::empty(),
            r.spec_serial() == 0,
            r.spec_slots() == 0,
            r.depth_ok(),
    {
        Forest1 { nodes: Arena::with_capacity(uid, capacity) }
    }

    /// Removes every node, keeping the backing allocation and the handle
    /// bookkeeping, so stale handles stay stale.
    pub fn clear(&mut self)
        ensures
            final(self).wf(),
            final(self).nodes() == Map::<Ref, Node<T, Ref>>::empty(),
            final(self).depth_ok(),
    {
        self.nodes.clear();
    }

    /// The exact number of nodes.
    pub fn len(&self) -> (r: usize)
        ensures
            r == self.spec_len(),
    {
        self.nodes.len()
    }

    pub fn is_empty(&self) -> (r: bool)
        ensures
            r == (self.spec_len() == 0),
    {
        self.len() == 0
    }

    /// Creates a parentless node at depth `0`.
    pub fn make_root(&mut self, item: T) -> (r: Ref)
        requires
            old(self).wf(),
            old(self).can_insert(),
        ensures
            final(self).wf(),
            !old(self).nodes().contains_key(r),
            final(self).nodes() == old(self).nodes().insert(
                r,
                Node { item, parent: None, depth: 0 },
            ),
            final(self).spec_len() == old(self).spec_len() + 1,
            final(self).spec_slots() <= old(self).spec_slots() + 1,
            old(self).spec_serial() + 1 < u64::MAX && old(self).spec_slots() + 1 < usize::MAX
                ==> final(self).can_insert(),
            old(self).depth_ok() ==> final(self).depth_ok(),
    {
        self.insert(Node { item, parent: None, depth: 0 })
    }

    /// Inserts a node exactly as given.  The depth bookkeeping is preserved
    /// only if the node's own parent and depth respect it.
    pub fn insert(&mut self, node: Node<T, Ref>) -> (r: Ref)
        requires
            old(self).wf(),
            old(self).can_insert(),
        ensures
            final(self).wf(),
            !old(self).nodes().contains_key(r),
            final(self).nodes() == old(self).nodes().insert(r, node),
            final(self).spec_len() == old(self).spec_len() + 1,
            final(self).spec_serial() == old(self).spec_serial() + 1,
            r.serial() == old(self).spec_serial() + 1,
            final(self).nodes().contains_key(r),
            final(self).spec_slots() <= old(self).spec_slots() + 1,
            old(self).spec_serial() + 1 < u64::MAX && old(self).spec_slots() + 1 < usize::MAX
                ==> final(self).can_insert(),
            old(self).depth_ok() && (match node.parent {
                Some(p) => p.serial() <= old(self).spec_serial() && (
                old(self).nodes().contains_key(p) ==> node.depth == old(self).nodes()[p].depth
                    + 1),
                None => node.depth == 0,
            }) ==> final(self).depth_ok(),
    {
        let ghost o = *self;
        let ghost nd = node;
        let r = self.nodes.insert(node);
        proof {
            if o.depth_ok() && (match nd.parent {
                Some(p) => p.serial() <= o.spec_serial() && (o.nodes().contains_key(p)
                    ==> nd.depth == o.nodes()[p].depth + 1),
                None => nd.depth == 0,
            }) {
                assert forall|r2: Ref| #[trigger] self.nodes().contains_key(r2) implies ({
                    let n = self.nodes()[r2];
                    match n.parent {
                        Some(p) => p.serial() <= self.spec_serial() && (
                        self.nodes().contains_key(p) ==> n.depth == self.nodes()[p].depth + 1),
                        None => n.depth == 0,
                    }
                }) by {
                    let n = self.nodes()[r2];
                    if r2 == r {
                        match n.parent {
                            Some(p) => {
                                assert(p.serial() <= o.spec_serial() < r.serial());
                                assert(p != r);
                            },
                            None => {},
                        }
                    } else {
                        assert(o.nodes().contains_key(r2));
                        match n.parent {
                            Some(p) => {
                                assert(p.serial() <= o.spec_serial() < r.serial());
                                assert(p != r);
                            },
                            None => {},
                        }
                    }
                }
            }
        }
        r
    }

    /// Looks the node up, returning its payload by reference together with
    /// its parent handle and cached depth; a foreign or stale handle yields
    /// `None`.
    pub fn get<'s>(&'s self, node_ref: Ref) -> (r: Option<Node<&'s T, Ref>>)
        ensures
            r is Some ==> self.nodes().contains_key(node_ref) && ({
                let n = self.nodes()[node_ref];
                *r.unwrap().item == n.item && r.unwrap().parent == n.parent && r.unwrap().depth
                    == n.depth
            }),
            r is None ==> !self.nodes().contains_key(node_ref),
    {
        match self.nodes.get(node_ref) {
            Some(node) => Some(
                Node { item: &node.item, parent: node.parent, depth: node.depth },
            ),
            None => None,
        }
    }

    /// Mutable lookup of a node's payload.  Parent and depth are not
    /// touched, so the depth bookkeeping survives.
    pub fn get_mut<'s>(&'s mut self, node_ref: Ref) -> (r: Option<&'s mut T>)
        ensures
            old(self).wf() ==> final(self).wf(),
            final(self).spec_serial() == old(self).spec_serial(),
            final(self).spec_len() == old(self).spec_len(),
            r is Some ==> old(self).nodes().contains_key(node_ref) && *r.unwrap()
                == old(self).nodes()[node_ref].item && final(self).nodes()
                == old(self).nodes().insert(
                node_ref,
                Node {
                    item: *final(r.unwrap()),
                    parent: old(self).nodes()[node_ref].parent,
                    depth: old(self).nodes()[node_ref].depth,
                },
            ),
            r is None ==> !old(self).nodes().contains_key(node_ref) && final(self).nodes()
                == old(self).nodes(),
    {
        match self.nodes.get_mut(node_ref) {
            Some(node) => Some(&mut node.item),
            None => None,
        }
    }

    /// Removes the node iff the handle is valid, without touching its
    /// descendants: their parent references simply go stale.
    pub fn remove(&mut self, node_ref: Ref) -> (r: Option<Node<T, Ref>>)
        requires
            old(self).wf(),
        ensures
            final(self).wf(),
            final(self).spec_serial() == old(self).spec_serial(),
            r is Some ==> old(self).nodes().contains_key(node_ref) && r.unwrap()
                == old(self).nodes()[node_ref] && final(self).nodes()
                == old(self).nodes().remove(node_ref) && final(self).spec_len()
                == old(self).spec_len() - 1,
            r is None ==> !old(self).nodes().contains_key(node_ref) && final(self).nodes()
                == old(self).nodes() && final(self).spec_len() == old(self).spec_len(),
            old(self).depth_ok() ==> final(self).depth_ok(),
    {
        let ghost o = *self;
        let r = self.nodes.remove(node_ref);
        proof {
            if o.depth_ok() {
                assert forall|r2: Ref| #[trigger] self.nodes().contains_key(r2) implies ({
                    let n = self.nodes()[r2];
                    match n.parent {
                        Some(p) => p.serial() <= self.spec_serial() && (
                        self.nodes().contains_key(p) ==> n.depth == self.nodes()[p].depth + 1),
                        None => n.depth == 0,
                    }
                }) by {
                    assert(o.nodes().contains_key(r2));
                }
            }
        }
        r
    }

    /// Creates a node under `parent_ref`.  If the parent resolves, the new
    /// node sits one level below it; if it does not (stale handle), the new
    /// node silently becomes a root at depth `0` — callers that need a hard
    /// failure on a dangling parent must check resolvability themselves.
    pub fn make_node(&mut self, parent_ref: Ref, item: T) -> (r: Ref)
        requires
            old(self).wf(),
            old(self).can_insert(),
            old(self).nodes().contains_key(parent_ref) ==> old(self).nodes()[parent_ref].depth
                < usize::MAX,
        ensures
            final(self).wf(),
            !old(self).nodes().contains_key(r),
            final(self).nodes() == old(self).nodes().insert(
                r,
                if old(self).nodes().contains_key(parent_ref) {
                    Node {
                        item,
                        parent: Some(parent_ref),
                        depth: (old(self).nodes()[parent_ref].depth + 1) as usize,
                    }
                } else {
                    Node { item, parent: None, depth: 0 }
                },
            ),
            final(self).spec_len() == old(self).spec_len() + 1,
            final(self).spec_slots() <= old(self).spec_slots() + 1,
            old(self).spec_serial() + 1 < u64::MAX && old(self).spec_slots() + 1 < usize::MAX
                ==> final(self).can_insert(),
            old(self).depth_ok() ==> final(self).depth_ok(),
    {
        let parent_depth: Option<usize> = match self.get(parent_ref) {
            Some(node) => Some(node.depth),
            None => None,
        };
        match parent_depth {
            Some(depth) => {
                proof {
                    if self.depth_ok() {
                        assert(self.nodes().contains_key(parent_ref));
                        assert(parent_ref.serial() <= self.spec_serial()) by {
                            crate::arena::lemma_generational_non_aliasing(
                                self.nodes,
                                parent_ref,
                            );
                        }
                    }
                }
                self.insert(Node { item, parent: Some(parent_ref), depth: depth + 1 })
            },
            None => self.insert(Node { item, parent: None, depth: 0 }),
        }
    }
}

impl<T> Forest1<T> {
    /// Enumerates this forest's nodes as `(handle, payload)` pairs in
    /// ascending slot order: sound, complete, duplicate-free.
    pub fn local_iter(&self) -> (r: Vec<(Ref, &T)>)
        ensures
            forall|k: int|
                0 <= k < r@.len() ==> self.nodes().contains_key((#[trigger] r@[k]).0) && *r@[k].1
                    == self.nodes()[r@[k].0].item,
            forall|k1: int, k2: int|
                0 <= k1 < k2 < r@.len() ==> r@[k1].0.slot() < r@[k2].0.slot(),
            forall|h: Ref| #[trigger]
                self.nodes().contains_key(h) ==> exists|k: int|
                    0 <= k < r@.len() && (#[trigger] r@[k]).0 == h,
    {
        let pairs = self.nodes.iter();
        let mut out: Vec<(Ref, &T)> = Vec::new();
        let mut j: usize = 0;
        while j < pairs.len()
            invariant
                j <= pairs@.len(),
                out@.len() == j,
                forall|k: int|
                    0 <= k < j ==> (#[trigger] out@[k]).0 == pairs@[k].0 && out@[k].1
                        == &pairs@[k].1.item,
                forall|k: int|
                    0 <= k < pairs@.len() ==> self.nodes().contains_key((#[trigger] pairs@[k]).0)
                        && *pairs@[k].1 == self.nodes()[pairs@[k].0],
                forall|k1: int, k2: int|
                    0 <= k1 < k2 < pairs@.len() ==> pairs@[k1].0.slot() < pairs@[k2].0.slot(),
                forall|h: Ref| #[trigger]
                    self.nodes().contains_key(h) ==> exists|k: int|
                        0 <= k < pairs@.len() && (#[trigger] pairs@[k]).0 == h,
            decreases pairs@.len() - j,
        {
            let (rf, node) = pairs[j];
            out.push((rf, &node.item));
            j = j + 1;
        }
        proof {
            assert forall|h: Ref| #[trigger] self.nodes().contains_key(h) implies exists|k: int|
                0 <= k < out@.len() && (#[trigger] out@[k]).0 == h by {
                let k = choose|k: int| 0 <= k < pairs@.len() && (#[trigger] pairs@[k]).0 == h;
                assert(out@[k].0 == h);
            }
            assert forall|k1: int, k2: int| 0 <= k1 < k2 < out@.len() implies out@[k1].0.slot()
                < out@[k2].0.slot() by {
                assert(out@[k1].0 == pairs@[k1].0 && out@[k2].0 == pairs@[k2].0);
            }
            assert forall|k: int| 0 <= k < out@.len() implies self.nodes().contains_key(
                (#[trigger] out@[k]).0,
            ) && *out@[k].1 == self.nodes()[out@[k].0].item by {
                assert(out@[k].0 == pairs@[k].0 && out@[k].1 == &pairs@[k].1.item);
            }
        }
        out
    }
}

impl<T> Forest1<T> {
    /// Enumerates this forest's nodes as `(handle, payload)` pairs using
    /// data-parallel, read-only iteration: every node appears exactly once,
    /// with no ordering guarantee across worker threads.
    pub fn local_par_iter(&self) -> (r: Vec<(Ref, &T)>) where T: Sync
        ensures
            forall|k: int|
                0 <= k < r@.len() ==> self.nodes().contains_key((#[trigger] r@[k]).0) && *r@[k].1
                    == self.nodes()[r@[k].0].item,
            forall|k1: int, k2: int| 0 <= k1 < k2 < r@.len() ==> r@[k1].0 != r@[k2].0,
            forall|h: Ref| #[trigger]
                self.nodes().contains_key(h) ==> exists|k: int|
                    0 <= k < r@.len() && (#[trigger] r@[k]).0 == h,
    {
        let pairs = self.nodes.par_iter();
        let mut out: Vec<(Ref, &T)> = Vec::new();
        let mut j: usize = 0;
        while j < pairs.len()
            invariant
                j <= pairs@.len(),
                out@.len() == j,
                forall|k: int|
                    0 <= k < j ==> (#[trigger] out@[k]).0 == pairs@[k].0 && out@[k].1
                        == &pairs@[k].1.item,
                forall|k: int|
                    0 <= k < pairs@.len() ==> self.nodes().contains_key((#[trigger] pairs@[k]).0)
                        && *pairs@[k].1 == self.nodes()[pairs@[k].0],
                forall|k1: int, k2: int|
                    0 <= k1 < k2 < pairs@.len() ==> pairs@[k1].0 != pairs@[k2].0,
                forall|h: Ref| #[trigger]
                    self.nodes().contains_key(h) ==> exists|k: int|
                        0 <= k < pairs@.len() && (#[trigger] pairs@[k]).0 == h,
            decreases pairs@.len() - j,
        {
            let (rf, node) = pairs[j];
            out.push((rf, &node.item));
            j = j + 1;
        }
        proof {
            assert forall|h: Ref| #[trigger] self.nodes().contains_key(h) implies exists|k: int|
                0 <= k < out@.len() && (#[trigger] out@[k]).0 == h by {
                let k = choose|k: int| 0 <= k < pairs@.len() && (#[trigger] pairs@[k]).0 == h;
                assert(out@[k].0 == h);
            }
            assert forall|k1: int, k2: int| 0 <= k1 < k2 < out@.len() implies out@[k1].0
                != out@[k2].0 by {
                assert(out@[k1].0 == pairs@[k1].0 && out@[k2].0 == pairs@[k2].0);
            }
            assert forall|k: int| 0 <= k < out@.len() implies self.nodes().contains_key(
                (#[trigger] out@[k]).0,
            ) && *out@[k].1 == self.nodes()[out@[k].0].item by {
                assert(out@[k].0 == pairs@[k].0 && out@[k].1 == &pairs@[k].1.item);
            }
        }
        out
    }
}

/// A reference as seen from one layer: either one of the layer's own nodes,
/// or a node of some layer below, to be resolved there.
#[derive(Clone, Copy, PartialEq, Eq, Hash, Debug)]
pub enum Ref2<R> {
    Local(Ref),
    External(R),
}

/// A forest layer stacked on top of another structure: its nodes may parent
/// onto nodes of the layer below via `External` references.  The layer
/// below is supplied by the caller, per call, as an accessor function; it
/// is never stored here.
pub struct Forest2<T, R> {
    local_nodes: Arena<Node<T, Ref2<R>>>,
}

impl<T, R> Forest2<T, R> {
    /// This layer's own contents: a map from each valid local node handle
    /// to its node.
    pub closed spec fn nodes(self) -> Map<Ref, Node<T, Ref2<R>>> {
        self.local_nodes.items()
    }

    pub closed spec fn wf(self) -> bool {
        self.local_nodes.wf()
    }

    pub closed spec fn can_insert(self) -> bool {
        self.local_nodes.can_insert()
    }

    pub closed spec fn spec_len(self) -> int {
        self.local_nodes.spec_len()
    }

    pub closed spec fn spec_serial(self) -> u64 {
        self.local_nodes.spec_serial()
    }

    /// The depth bookkeeping among this layer's own nodes: a node with a
    /// still-resolving local parent sits one level below it, and a
    /// parentless node is a root at depth `0`.  Nodes with external parents
    /// are constrained only at creation time, against the layer below.
    pub open spec fn depth_ok(self) -> bool {
        forall|r: Ref| #[trigger]
            self.nodes().contains_key(r) ==> ({
                let n = self.nodes()[r];
                match n.parent {
                    Some(Ref2::Local(p)) => p.serial() <= self.spec_serial() && (
                    self.nodes().contains_key(p) ==> n.depth == self.nodes()[p].depth + 1),
                    Some(Ref2::External(_)) => true,
                    None => n.depth == 0,
                }
            })
    }

    /// Creates an empty layer owning the arena identity `uid`.
    pub fn new(uid: u64) -> (r: Forest2<T, R>)
        ensures
            r.wf(),
            r.can_insert(),
            r.nodes() == Map::<Ref, Node<T, Ref2<R>>>::empty(),
            r.spec_serial() == 0,
            r.spec_slots() == 0,
            r.depth_ok(),
    {
        Forest2 { local_nodes: Arena::new(uid) }
    }

    /// Creates an empty layer with at least `capacity` slots preallocated.
    pub fn with_capacity(uid: u64, capacity: usize) -> (r: Forest2<T, R>)
        ensures
            r.wf(),
            r.can_insert(),
            r.nodes() == Map::<Ref, Node<T, Ref2<R>>>::empty(),
            r.spec_serial() == 0,
            r.spec_slots() == 0,
            r.depth_ok(),
    {
        Forest2 { local_nodes: Arena::with_capacity(uid, capacity) }
    }

    /// Removes every node of this layer, keeping the backing allocation and
    /// the handle bookkeeping.
    pub fn clear(&mut self)
        ensures
            final(self).wf(),
            final(self).nodes() == Map::<Ref, Node<T, Ref2<R>>>::empty(),
            final(self).depth_ok(),
    {
        self.local_nodes.clear();
    }

    /// The exact number of nodes of this layer alone.
    pub fn len(&self) -> (r: usize)
        ensures
            r == self.spec_len(),
    {
        self.local_nodes.len()
    }

    pub fn is_empty(&self) -> (r: bool)
        ensures
            r == (self.spec_len() == 0),
    {
        self.len() == 0
    }

    /// Creates a parentless node at depth `0`.
    pub fn make_root(&mut self, item: T) -> (r: Ref2<R>)
        requires
            old(self).wf(),
            old(self).can_insert(),
        ensures
            final(self).wf(),
            r matches Ref2::Local(lr) && !old(self).nodes().contains_key(lr)
                && final(self).nodes() == old(self).nodes().insert(
                lr,
                Node { item, parent: None, depth: 0 },
            ),
            final(self).spec_len() == old(self).spec_len() + 1,
            final(self).spec_slots() <= old(self).spec_slots() + 1,
            old(self).spec_serial() + 1 < u64::MAX && old(self).spec_slots() + 1 < usize::MAX
                ==> final(self).can_insert(),
            old(self).depth_ok() ==> final(self).depth_ok(),
    {
        self.insert(Node { item, parent: None, depth: 0 })
    }

    /// Inserts a node exactly as given, under a `Local` handle.
    pub fn insert(&mut self, node: Node<T, Ref2<R>>) -> (r: Ref2<R>)
        requires
            old(self).wf(),
            old(self).can_insert(),
        ensures
            final(self).wf(),
            r matches Ref2::Local(lr) && !old(self).nodes().contains_key(lr)
                && final(self).nodes() == old(self).nodes().insert(lr, node)
                && lr.serial() == old(self).spec_serial() + 1
                && final(self).nodes().contains_key(lr),
            final(self).spec_len() == old(self).spec_len() + 1,
            final(self).spec_serial() == old(self).spec_serial() + 1,
            final(self).spec_slots() <= old(self).spec_slots() + 1,
            old(self).spec_serial() + 1 < u64::MAX && old(self).spec_slots() + 1 < usize::MAX
                ==> final(self).can_insert(),
            old(self).depth_ok() && (match node.parent {
                Some(Ref2::Local(p)) => p.serial() <= old(self).spec_serial() && (
                old(self).nodes().contains_key(p) ==> node.depth == old(self).nodes()[p].depth
                    + 1),
                Some(Ref2::External(_)) => true,
                None => node.depth == 0,
            }) ==> final(self).depth_ok(),
    {
        let ghost o = *self;
        let ghost nd = node;
        let lr = self.local_nodes.insert(node);
        proof {
            if o.depth_ok() && (match nd.parent {
                Some(Ref2::Local(p)) => p.serial() <= o.spec_serial() && (
                o.nodes().contains_key(p) ==> nd.depth == o.nodes()[p].depth + 1),
                Some(Ref2::External(_)) => true,
                None => nd.depth == 0,
            }) {
                assert forall|r2: Ref| #[trigger] self.nodes().contains_key(r2) implies ({
                    let n = self.nodes()[r2];
                    match n.parent {
                        Some(Ref2::Local(p)) => p.serial() <= self.spec_serial() && (
                        self.nodes().contains_key(p) ==> n.depth == self.nodes()[p].depth + 1),
                        Some(Ref2::External(_)) => true,
                        None => n.depth == 0,
                    }
                }) by {
                    let n = self.nodes()[r2];
                    if r2 != lr {
                        assert(o.nodes().contains_key(r2));
                    }
                    match n.parent {
                        Some(Ref2::Local(p)) => {
                            assert(p.serial() <= o.spec_serial() < lr.serial());
                            assert(p != lr);
                        },
                        _ => {},
                    }
                }
            }
        }
        Ref2::Local(lr)
    }

    /// Looks a reference up: locally for `Local`, or by delegating exactly
    /// once to the supplied accessor for `External` (the accessor itself
    /// must be a composed chain if more layers lie below).
    pub fn get<'s, 'a: 's, A>(&'s self, upper_layer_access: A, node_ref: Ref2<R>) -> (r: Option<
        Node<&'s T, Ref2<R>>,
    >) where T: 'a, R: Copy, A: FnOnce(R) -> Option<Node<&'a T, R>>
        requires
            node_ref matches Ref2::External(er) ==> call_requires(upper_layer_access, (er,)),
        ensures
            match node_ref {
                Ref2::Local(lr) => {
                    &&& r is Some ==> self.nodes().contains_key(lr) && ({
                        let n = self.nodes()[lr];
                        *r.unwrap().item == n.item && r.unwrap().parent == n.parent
                            && r.unwrap().depth == n.depth
                    })
                    &&& r is None ==> !self.nodes().contains_key(lr)
                },
                Ref2::External(er) => exists|out: Option<Node<&'a T, R>>| #[trigger]
                    call_ensures(upper_layer_access, (er,), out) && (match (out, r) {
                        (Some(n), Some(m)) => m.item == n.item && m.depth == n.depth && m.parent
                            == (match n.parent {
                            Some(p) => Some(Ref2::External(p)),
                            None => None::<Ref2<R>>,
                        }),
                        (None, None) => true,
                        _ => false,
                    }),
            },
    {
        match node_ref {
            Ref2::Local(local_node_ref) => {
                match self.local_nodes.get(local_node_ref) {
                    Some(node) => Some(
                        Node { item: &node.item, parent: node.parent, depth: node.depth },
                    ),
                    None => None,
                }
            },
            Ref2::External(external_node_ref) => {
                match upper_layer_access(external_node_ref) {
                    Some(node) => Some(
                        Node {
                            item: node.item,
                            parent: match node.parent {
                                Some(p) => Some(Ref2::External(p)),
                                None => None,
                            },
                            depth: node.depth,
                        },
                    ),
                    None => None,
                }
            },
        }
    }

    /// Mutable lookup of a node's payload, delegating to the accessor for
    /// `External` references.  Parent and depth are never touched.
    pub fn get_mut<'s, 'a: 's, A>(&'s mut self, upper_layer_access: A, node_ref: Ref2<R>) -> (r:
        Option<&'s mut T>) where T: 'a, A: FnOnce(R) -> Option<&'a mut T>
        requires
            node_ref matches Ref2::External(er) ==> call_requires(upper_layer_access, (er,)),
        ensures
            old(self).wf() ==> final(self).wf(),
            final(self).spec_serial() == old(self).spec_serial(),
            final(self).spec_len() == old(self).spec_len(),
            match node_ref {
                Ref2::Local(lr) => {
                    &&& r is Some ==> old(self).nodes().contains_key(lr) && *r.unwrap()
                        == old(self).nodes()[lr].item && final(self).nodes()
                        == old(self).nodes().insert(
                        lr,
                        Node {
                            item: *final(r.unwrap()),
                            parent: old(self).nodes()[lr].parent,
                            depth: old(self).nodes()[lr].depth,
                        },
                    )
                    &&& r is None ==> !old(self).nodes().contains_key(lr) && final(self).nodes()
                        == old(self).nodes()
                },
                Ref2::External(er) => final(self).nodes() == old(self).nodes() && exists|
                    out: Option<&'a mut T>,
                | #[trigger] call_ensures(upper_layer_access, (er,), out) && r == out,
            },
    {
        match node_ref {
            Ref2::Local(local_node_ref) => {
                match self.local_nodes.get_mut(local_node_ref) {
                    Some(node) => Some(&mut node.item),
                    None => None,
                }
            },
            Ref2::External(external_node_ref) => upper_layer_access(external_node_ref),
        }
    }

    /// Removes a local node iff the handle is valid; for an `External`
    /// reference the removal is delegated to the accessor, and this layer
    /// is untouched.  Descendants are never removed: their parent
    /// references simply go stale.
    pub fn remove<A>(&mut self, upper_layer_access: A, node_ref: Ref2<R>) -> (r: Option<
        Node<T, Ref2<R>>,
    >) where A: FnOnce(R) -> Option<Node<T, R>>
        requires
            old(self).wf(),
            node_ref matches Ref2::External(er) ==> call_requires(upper_layer_access, (er,)),
        ensures
            final(self).wf(),
            final(self).spec_serial() == old(self).spec_serial(),
            old(self).depth_ok() ==> final(self).depth_ok(),
            match node_ref {
                Ref2::Local(lr) => {
                    &&& r is Some ==> old(self).nodes().contains_key(lr) && r.unwrap()
                        == old(self).nodes()[lr] && final(self).nodes()
                        == old(self).nodes().remove(lr) && final(self).spec_len()
                        == old(self).spec_len() - 1
                    &&& r is None ==> !old(self).nodes().contains_key(lr) && final(self).nodes()
                        == old(self).nodes()
                },
                Ref2::External(er) => final(self).nodes() == old(self).nodes() && exists|
                    out: Option<Node<T, R>>,
                | #[trigger] call_ensures(upper_layer_access, (er,), out) && (match (out, r) {
                    (Some(n), Some(m)) => m.item == n.item && m.depth == n.depth && m.parent == (
                    match n.parent {
                        Some(p) => Some(Ref2::External(p)),
                        None => None::<Ref2<R>>,
                    }),
                    (None, None) => true,
                    _ => false,
                }),
            },
    {
        let ghost o = *self;
        let r = match node_ref {
            Ref2::Local(local_node_ref) => self.local_nodes.remove(local_node_ref),
            Ref2::External(external_node_ref) => {
                match upper_layer_access(external_node_ref) {
                    Some(node) => {
                        return Some(
                            Node {
                                item: node.item,
                                parent: match node.parent {
                                    Some(p) => Some(Ref2::External(p)),
                                    None => None,
                                },
                                depth: node.depth,
                            },
                        );
                    },
                    None => {
                        return None;
                    },
                }
            },
        };
        proof {
            if o.depth_ok() {
                assert forall|r2: Ref| #[trigger] self.nodes().contains_key(r2) implies ({
                    let n = self.nodes()[r2];
                    match n.parent {
                        Some(Ref2::Local(p)) => p.serial() <= self.spec_serial() && (
                        self.nodes().contains_key(p) ==> n.depth == self.nodes()[p].depth + 1),
                        Some(Ref2::External(_)) => true,
                        None => n.depth == 0,
                    }
                }) by {
                    assert(o.nodes().contains_key(r2));
                }
            }
        }
        r
    }

    /// Creates a node under `parent_ref`, resolving the parent locally or
    /// through the accessor.  If the parent resolves, the new node sits one
    /// level below it; otherwise it silently becomes a root at depth `0` —
    /// callers that need a hard failure on a dangling parent must check
    /// resolvability themselves.
    pub fn make_node<'s, 'a, A>(&'s mut self, upper_layer_access: A, parent_ref: Ref2<R>, item: T)
        -> (r: Ref2<R>) where T: 'a, R: Copy, A: FnOnce(R) -> Option<Node<&'a T, R>>
        requires
            old(self).wf(),
            old(self).can_insert(),
            parent_ref matches Ref2::External(er) ==> call_requires(upper_layer_access, (er,))
                && (forall|out: Option<Node<&'a T, R>>|
                call_ensures(upper_layer_access, (er,), out) ==> (out matches Some(n) ==> n.depth
                    < usize::MAX)),
            parent_ref matches Ref2::Local(lp) ==> (old(self).nodes().contains_key(lp)
                ==> old(self).nodes()[lp].depth < usize::MAX),
        ensures
            final(self).wf(),
            final(self).spec_len() == old(self).spec_len() + 1,
            final(self).spec_slots() <= old(self).spec_slots() + 1,
            old(self).spec_serial() + 1 < u64::MAX && old(self).spec_slots() + 1 < usize::MAX
                ==> final(self).can_insert(),
            old(self).depth_ok() ==> final(self).depth_ok(),
            match parent_ref {
                Ref2::Local(lp) => r matches Ref2::Local(lr) && !old(self).nodes().contains_key(
                    lr,
                ) && final(self).nodes() == old(self).nodes().insert(
                    lr,
                    if old(self).nodes().contains_key(lp) {
                        Node {
                            item,
                            parent: Some(parent_ref),
                            depth: (old(self).nodes()[lp].depth + 1) as usize,
                        }
                    } else {
                        Node { item, parent: None, depth: 0 }
                    },
                ),
                Ref2::External(er) => exists|out: Option<Node<&'a T, R>>| #[trigger]
                    call_ensures(upper_layer_access, (er,), out) && (r matches Ref2::Local(lr)
                        && !old(self).nodes().contains_key(lr) && final(self).nodes()
                        == old(self).nodes().insert(
                        lr,
                        match out {
                            Some(n) => Node {
                                item,
                                parent: Some(parent_ref),
                                depth: (n.depth + 1) as usize,
                            },
                            None => Node { item, parent: None, depth: 0 },
                        },
                    )),
            },
    {
        match parent_ref {
            Ref2::Local(local_parent) => {
                let parent_depth: Option<usize> = match self.local_nodes.get(local_parent) {
                    Some(node) => Some(node.depth),
                    None => None,
                };
                match parent_depth {
                    Some(depth) => {
                        proof {
                            crate::arena::lemma_generational_non_aliasing(
                                self.local_nodes,
                                local_parent,
                            );
                        }
                        self.insert(
                            Node { item, parent: Some(parent_ref), depth: depth + 1 },
                        )
                    },
                    None => self.insert(Node { item, parent: None, depth: 0 }),
                }
            },
            Ref2::External(external_parent) => {
                let parent_depth: Option<usize> = match upper_layer_access(external_parent) {
                    Some(node) => Some(node.depth),
                    None => None,
                };
                match parent_depth {
                    Some(depth) => self.insert(
                        Node { item, parent: Some(parent_ref), depth: depth + 1 },
                    ),
                    None => self.insert(Node { item, parent: None, depth: 0 }),
                }
            },
        }
    }

    /// Wraps a reference of the layer below for use in this layer.
    pub fn external_ref(&self, node_ref: R) -> (r: Ref2<R>)
        ensures
            r == Ref2::External(node_ref),
    {
        Ref2::External(node_ref)
    }

    /// Enumerates this layer's own nodes (never those of layers below) as
    /// `(handle, payload)` pairs in ascending slot order, each handle
    /// wrapped as `Local`.
    pub fn local_iter(&self) -> (r: Vec<(Ref2<R>, &T)>)
        ensures
            forall|k: int|
                0 <= k < r@.len() ==> ((#[trigger] r@[k]).0 matches Ref2::Local(lr)
                    && self.nodes().contains_key(lr) && *r@[k].1 == self.nodes()[lr].item),
            forall|h: Ref| #[trigger]
                self.nodes().contains_key(h) ==> exists|k: int|
                    0 <= k < r@.len() && (#[trigger] r@[k]).0 == Ref2::<R>::Local(h),
    {
        let pairs = self.local_nodes.iter();
        let mut out: Vec<(Ref2<R>, &T)> = Vec::new();
        let mut j: usize = 0;
        while j < pairs.len()
            invariant
                j <= pairs@.len(),
                out@.len() == j,
                forall|k: int|
                    0 <= k < j ==> (#[trigger] out@[k]).0 == Ref2::<R>::Local(pairs@[k].0)
                        && out@[k].1 == &pairs@[k].1.item,
                forall|k: int|
                    0 <= k < pairs@.len() ==> self.nodes().contains_key((#[trigger] pairs@[k]).0)
                        && *pairs@[k].1 == self.nodes()[pairs@[k].0],
                forall|h: Ref| #[trigger]
                    self.nodes().contains_key(h) ==> exists|k: int|
                        0 <= k < pairs@.len() && (#[trigger] pairs@[k]).0 == h,
            decreases pairs@.len() - j,
        {
            let (rf, node) = pairs[j];
            out.push((Ref2::Local(rf), &node.item));
            j = j + 1;
        }
        proof {
            assert forall|h: Ref| #[trigger] self.nodes().contains_key(h) implies exists|k: int|
                0 <= k < out@.len() && (#[trigger] out@[k]).0 == Ref2::<R>::Local(h) by {
                let k = choose|k: int| 0 <= k < pairs@.len() && (#[trigger] pairs@[k]).0 == h;
                assert(out@[k].0 == Ref2::<R>::Local(h));
            }
            assert forall|k: int| 0 <= k < out@.len() implies ((#[trigger] out@[k]).0 matches
                Ref2::Local(lr) && self.nodes().contains_key(lr) && *out@[k].1
                == self.nodes()[lr].item) by {
                assert(out@[k].0 == Ref2::<R>::Local(pairs@[k].0) && out@[k].1
                    == &pairs@[k].1.item);
            }
        }
        out
    }
}

impl<T> Forest1<T> {
    /// The number of slots this forest holds (occupied or vacant).
    pub closed spec fn spec_slots(self) -> int {
        self.nodes.spec_slots()
    }

    /// Whether `n` more slots can be reserved without exhausting this
    /// forest's serial counter or the address space.
    pub closed spec fn can_absorb(self, n: int) -> bool {
        self.nodes.can_absorb(n)
    }

    /// Begins merging this forest's nodes into `target` as siblings: every
    /// node of `self` gets a fresh slot reserved in `target`; the drive
    /// rewrites each relocated node's parent handle through the remap, so
    /// parent chains survive the relocation intact.
    pub fn merge_aflat(self, target: Forest1<T>) -> (m: Forest1InitMerger<T>)
        requires
            self.wf(),
            target.wf(),
            target.can_absorb(self.spec_slots()),
        ensures
            m.inv(),
            m.target_now() == target.nodes(),
            entries_distinct(m.remaining()),
            entries_map(m.remaining()) == self.nodes(),
            m.rmap().dom() == self.nodes().dom(),
            forall|r1: Ref, r2: Ref|
                m.rmap().contains_key(r1) && m.rmap().contains_key(r2) && r1 != r2
                    ==> m.rmap()[r1] != m.rmap()[r2],
            forall|r: Ref| #[trigger]
                m.rmap().contains_key(r) ==> !target.nodes().contains_key(m.rmap()[r]),
    {
        Forest1InitMerger(target.nodes.merge(self.nodes))
    }
}

/// A forest merge whose reservation phase is complete.
pub struct Forest1InitMerger<T>(SetsInitMerger<Node<T, Ref>, Node<T, Ref>>);

/// A forest merge being driven item by item; `parent` and `depth` belong to
/// the node yielded last, whose payload the caller is transforming.
pub struct Forest1InProgressMerger<T> {
    inner_merger: SetsInProgressMerger<Node<T, Ref>, Node<T, Ref>>,
    parent: Option<Ref>,
    depth: usize,
}

impl<T> Forest1InProgressMerger<T> {
    /// Wraps one step of the underlying arena merge: a yielded node is
    /// split into its payload (handed to the caller) and its parent and
    /// depth (kept here for `proceed` to reassemble).
    fn make_state(
        inner_state: MergeState<
            Ref,
            Node<T, Ref>,
            SetsInProgressMerger<Node<T, Ref>, Node<T, Ref>>,
            Arena<Node<T, Ref>>,
            Arena<Node<T, Ref>>,
        >,
        Ghost(rmap): Ghost<Map<Ref, Ref>>,
        Ghost(tgt): Ghost<Map<Ref, Node<T, Ref>>>,
        Ghost(rem): Ghost<Seq<(Ref, Node<T, Ref>)>>,
    ) -> (st: MergeState<Ref, T, Forest1InProgressMerger<T>, Forest1<T>, Forest1<T>>)
        requires
            merge_state_inv::<
                Ref,
                Ref,
                Node<T, Ref>,
                Node<T, Ref>,
                Arena<Node<T, Ref>>,
                Arena<Node<T, Ref>>,
                SetsInProgressMerger<Node<T, Ref>, Node<T, Ref>>,
            >(inner_state, rmap, tgt, rem),
        ensures
            match st {
                MergeState::Continue { item_ref, item, next } => {
                    &&& rem.len() > 0
                    &&& item_ref == rem[0].0
                    &&& item == rem[0].1.item
                    &&& next.inner_merger.inv()
                    &&& next.inner_merger.rmap() == rmap
                    &&& next.inner_merger.target_now() == tgt
                    &&& next.inner_merger.remaining() == rem.drop_first()
                    &&& next.inner_merger.cur_src() == rem[0].1
                    &&& next.parent == rem[0].1.parent
                    &&& next.depth == rem[0].1.depth
                    &&& rmap.contains_key(item_ref)
                    &&& next.inner_merger.pending() == rmap[item_ref]
                    &&& !tgt.contains_key(rmap[item_ref])
                },
                MergeState::Finish { merged, empty } => {
                    &&& rem.len() == 0
                    &&& merged.nodes() == tgt
                    &&& merged.wf()
                    &&& empty.wf()
                    &&& empty.nodes() == Map::<Ref, Node<T, Ref>>::empty()
                },
            },
    {
        match inner_state {
            MergeState::Continue { item_ref, item: node, next } => {
                let Node { item, parent, depth } = node;
                MergeState::Continue {
                    item_ref,
                    item,
                    next: Forest1InProgressMerger { inner_merger: next, parent, depth },
                }
            },
            MergeState::Finish { merged, empty } => MergeState::Finish {
                merged: Forest1 { nodes: merged },
                empty: Forest1 { nodes: empty },
            },
        }
    }
}

impl<T> InitMerger<Ref, Ref, T, T, Forest1InProgressMerger<T>, Forest1<T>, Forest1<T>> for Forest1InitMerger<
    T,
> {
    closed spec fn inv(&self) -> bool {
        self.0.inv()
    }

    closed spec fn rmap(&self) -> Map<Ref, Ref> {
        self.0.rmap()
    }

    closed spec fn target_now(&self) -> Map<Ref, Node<T, Ref>> {
        self.0.target_now()
    }

    closed spec fn remaining(&self) -> Seq<(Ref, Node<T, Ref>)> {
        self.0.remaining()
    }

    fn ref_transform(&self, source_ref: Ref) -> (r: Option<Ref>) {
        self.0.ref_transform(source_ref)
    }

    fn merge_start(self) -> (st: MergeState<Ref, T, Forest1InProgressMerger<T>, Forest1<T>, Forest1<
        T,
    >>) {
        let Forest1InitMerger(inner) = self;
        let ghost rmap = inner.rmap();
        let ghost tgt = inner.target_now();
        let ghost rem = inner.remaining();
        let inner_state = inner.merge_start();
        Forest1InProgressMerger::make_state(inner_state, Ghost(rmap), Ghost(tgt), Ghost(rem))
    }
}

impl<T> InProgressMerger<Ref, Ref, T, T, Forest1<T>, Forest1<T>> for Forest1InProgressMerger<T> {
    type Src = Node<T, Ref>;

    type Stored = Node<T, Ref>;

    closed spec fn inv(&self) -> bool {
        &&& self.inner_merger.inv()
        &&& self.parent == self.inner_merger.cur_src().parent
        &&& self.depth == self.inner_merger.cur_src().depth
    }

    closed spec fn rmap(&self) -> Map<Ref, Ref> {
        self.inner_merger.rmap()
    }

    closed spec fn target_now(&self) -> Map<Ref, Node<T, Ref>> {
        self.inner_merger.target_now()
    }

    closed spec fn remaining(&self) -> Seq<(Ref, Node<T, Ref>)> {
        self.inner_merger.remaining()
    }

    closed spec fn cur_src(&self) -> Node<T, Ref> {
        self.inner_merger.cur_src()
    }

    closed spec fn pending(&self) -> Ref {
        self.inner_merger.pending()
    }

    open spec fn item_of(s: Node<T, Ref>) -> T {
        s.item
    }

    /// A relocated node keeps its payload and cached depth; its parent
    /// handle is rewritten through the remap, or dropped (making the node a
    /// root) if the parent was not itself relocated.
    open spec fn restore(rmap: Map<Ref, Ref>, s: Node<T, Ref>, ti: T) -> Node<T, Ref> {
        Node {
            item: ti,
            parent: match s.parent {
                Some(p) => if rmap.contains_key(p) {
                    Some(rmap[p])
                } else {
                    None
                },
                None => None,
            },
            depth: s.depth,
        }
    }

    open spec fn merged_items(fm: &Forest1<T>) -> Map<Ref, Node<T, Ref>> {
        fm.nodes()
    }

    open spec fn merged_ok(fm: &Forest1<T>) -> bool {
        fm.wf()
    }

    open spec fn empty_ok(fe: &Forest1<T>) -> bool {
        fe.wf() && fe.nodes() == Map::<Ref, Node<T, Ref>>::empty()
    }

    fn ref_transform(&self, source_ref: Ref) -> (r: Option<Ref>) {
        self.inner_merger.ref_transform(source_ref)
    }

    fn proceed(self, transformed_item: T) -> (st: MergeState<
        Ref,
        T,
        Forest1InProgressMerger<T>,
        Forest1<T>,
        Forest1<T>,
    >) {
        let Forest1InProgressMerger { inner_merger, parent, depth } = self;
        let new_parent: Option<Ref> = match parent {
            Some(p) => inner_merger.ref_transform(p),
            None => None,
        };
        let node = Node { item: transformed_item, parent: new_parent, depth };
        let ghost rmap = inner_merger.rmap();
        let ghost tgt2 = inner_merger.target_now().insert(inner_merger.pending(), node);
        let ghost rem = inner_merger.remaining();
        let inner_state = inner_merger.proceed(node);
        Forest1InProgressMerger::make_state(inner_state, Ghost(rmap), Ghost(tgt2), Ghost(rem))
    }
}

/// Overwriting a node's payload in place — what `get_mut` permits — never
/// disturbs the depth bookkeeping: parents and depths are untouched.
pub proof fn lemma_depth_ok_payload_update<T>(pre: Forest1<T>, post: Forest1<T>, r: Ref, v: T)
    requires
        pre.depth_ok(),
        pre.nodes().contains_key(r),
        post.nodes() == pre.nodes().insert(
            r,
            Node { item: v, parent: pre.nodes()[r].parent, depth: pre.nodes()[r].depth },
        ),
        post.spec_serial() == pre.spec_serial(),
    ensures
        post.depth_ok(),
{
    assert forall|r2: Ref| #[trigger] post.nodes().contains_key(r2) implies ({
        let n = post.nodes()[r2];
        match n.parent {
            Some(p) => p.serial() <= post.spec_serial() && (post.nodes().contains_key(p)
                ==> n.depth == post.nodes()[p].depth + 1),
            None => n.depth == 0,
        }
    }) by {
        assert(pre.nodes().contains_key(r2));
        assert(post.nodes()[r2].parent == pre.nodes()[r2].parent);
        assert(post.nodes()[r2].depth == pre.nodes()[r2].depth);
    }
}

/// Merge reference integrity for sibling merges of self-contained forests:
/// a relocated node whose parent was itself relocated keeps, after a full
/// identity drive, a parent handle that resolves to the relocated parent
/// node — never to absence and never to an unrelated node.
pub proof fn lemma_merge_reference_integrity<T>(
    rmap: Map<Ref, Ref>,
    tgt: Map<Ref, Node<T, Ref>>,
    rem: Seq<(Ref, Node<T, Ref>)>,
    k: int,
    kp: int,
)
    requires
        entries_distinct(rem),
        forall|q: int| 0 <= q < rem.len() ==> rmap.contains_key((#[trigger] rem[q]).0),
        forall|q1: int, q2: int|
            0 <= q1 < q2 < rem.len() ==> rmap[(#[trigger] rem[q1]).0] != rmap[(
            #[trigger] rem[q2]).0],
        forall|q: int| 0 <= q < rem.len() ==> !tgt.contains_key(rmap[(#[trigger] rem[q]).0]),
        0 <= k < rem.len(),
        0 <= kp < rem.len(),
        rem[k].1.parent == Some(rem[kp].0),
    ensures
        ({
            let res = crate::merge::identity_merge_result::<
                Ref,
                Ref,
                T,
                Forest1<T>,
                Forest1<T>,
                Forest1InProgressMerger<T>,
            >(rmap, tgt, rem);
            let p = rem[kp].0;
            &&& res.contains_key(rmap[rem[k].0])
            &&& res[rmap[rem[k].0]].item == rem[k].1.item
            &&& res[rmap[rem[k].0]].depth == rem[k].1.depth
            &&& res[rmap[rem[k].0]].parent == Some(rmap[p])
            &&& res.contains_key(rmap[p])
            &&& res[rmap[p]].item == rem[kp].1.item
        }),
{
    lemma_merge_completeness::<Ref, Ref, T, Forest1<T>, Forest1<T>, Forest1InProgressMerger<T>>(
        rmap,
        tgt,
        rem,
    );
}

impl<T, R> Forest2<T, R> {
    /// Enumerates this layer's own nodes as `(handle, payload)` pairs using
    /// data-parallel, read-only iteration, each handle wrapped as `Local`:
    /// every node appears exactly once, with no ordering guarantee across
    /// worker threads.
    pub fn local_par_iter(&self) -> (r: Vec<(Ref2<R>, &T)>) where T: Sync, R: Sync
        ensures
            forall|k: int|
                0 <= k < r@.len() ==> ((#[trigger] r@[k]).0 matches Ref2::Local(lr)
                    && self.nodes().contains_key(lr) && *r@[k].1 == self.nodes()[lr].item),
            forall|h: Ref| #[trigger]
                self.nodes().contains_key(h) ==> exists|k: int|
                    0 <= k < r@.len() && (#[trigger] r@[k]).0 == Ref2::<R>::Local(h),
    {
        let pairs = self.local_nodes.par_iter();
        let mut out: Vec<(Ref2<R>, &T)> = Vec::new();
        let mut j: usize = 0;
        while j < pairs.len()
            invariant
                j <= pairs@.len(),
                out@.len() == j,
                forall|k: int|
                    0 <= k < j ==> (#[trigger] out@[k]).0 == Ref2::<R>::Local(pairs@[k].0)
                        && out@[k].1 == &pairs@[k].1.item,
                forall|k: int|
                    0 <= k < pairs@.len() ==> self.nodes().contains_key((#[trigger] pairs@[k]).0)
                        && *pairs@[k].1 == self.nodes()[pairs@[k].0],
                forall|h: Ref| #[trigger]
                    self.nodes().contains_key(h) ==> exists|k: int|
                        0 <= k < pairs@.len() && (#[trigger] pairs@[k]).0 == h,
            decreases pairs@.len() - j,
        {
            let (rf, node) = pairs[j];
            out.push((Ref2::Local(rf), &node.item));
            j = j + 1;
        }
        proof {
            assert forall|h: Ref| #[trigger] self.nodes().contains_key(h) implies exists|k: int|
                0 <= k < out@.len() && (#[trigger] out@[k]).0 == Ref2::<R>::Local(h) by {
                let k = choose|k: int| 0 <= k < pairs@.len() && (#[trigger] pairs@[k]).0 == h;
                assert(out@[k].0 == Ref2::<R>::Local(h));
            }
            assert forall|k: int| 0 <= k < out@.len() implies ((#[trigger] out@[k]).0 matches
                Ref2::Local(lr) && self.nodes().contains_key(lr) && *out@[k].1
                == self.nodes()[lr].item) by {
                assert(out@[k].0 == Ref2::<R>::Local(pairs@[k].0) && out@[k].1
                    == &pairs@[k].1.item);
            }
        }
        out
    }
}

/// A map keyed by a layer's own handles, re-keyed under `Local` wrapping,
/// as a stacked layer's callers see it.
pub open spec fn local_keyed<V, R>(m: Map<Ref, V>) -> Map<Ref2<R>, V> {
    Map::new(
        |sr: Ref2<R>|
            match sr {
                Ref2::Local(r) => m.contains_key(r),
                Ref2::External(_) => false,
            },
        |sr: Ref2<R>|
            match sr {
                Ref2::Local(r) => m[r],
                Ref2::External(_) => arbitrary(),
            },
    )
}

/// Source entries with their handles wrapped as `Local`.
pub open spec fn local_entries<V, R>(s: Seq<(Ref, V)>) -> Seq<(Ref2<R>, V)> {
    s.map_values(|p: (Ref, V)| (Ref2::Local(p.0), p.1))
}

/// Re-keying commutes with insertion.
proof fn lemma_local_keyed_insert<V, R>(m: Map<Ref, V>, r: Ref, v: V)
    ensures
        local_keyed::<V, R>(m.insert(r, v)) == local_keyed::<V, R>(m).insert(Ref2::Local(r), v),
{
    assert(local_keyed::<V, R>(m.insert(r, v)) =~= local_keyed::<V, R>(m).insert(
        Ref2::Local(r),
        v,
    ));
}

/// Dropping the first entry commutes with `Local` wrapping.
proof fn lemma_local_entries_drop_first<V, R>(s: Seq<(Ref, V)>)
    requires
        s.len() > 0,
    ensures
        local_entries::<V, R>(s).drop_first() == local_entries::<V, R>(s.drop_first()),
{
    assert(local_entries::<V, R>(s).drop_first() =~= local_entries::<V, R>(s.drop_first()));
}

/// The entry map of `Local`-wrapped entries is the re-keyed entry map.
proof fn lemma_entries_map_local<V, R>(s: Seq<(Ref, V)>)
    ensures
        entries_map(local_entries::<V, R>(s)) == local_keyed::<V, R>(entries_map(s)),
    decreases s.len(),
{
    if s.len() == 0 {
        assert(entries_map(local_entries::<V, R>(s)) =~= local_keyed::<V, R>(entries_map(s)));
    } else {
        lemma_entries_map_local::<V, R>(s.drop_first());
        lemma_local_entries_drop_first::<V, R>(s);
        assert(entries_map(local_entries::<V, R>(s)) == entries_map(
            local_entries::<V, R>(s.drop_first()),
        ).insert(Ref2::Local(s[0].0), s[0].1));
        lemma_local_keyed_insert::<V, R>(entries_map(s.drop_first()), s[0].0, s[0].1);
    }
}

impl<T, R> Forest2<T, R> {
    /// The number of slots this layer holds (occupied or vacant).
    pub closed spec fn spec_slots(self) -> int {
        self.local_nodes.spec_slots()
    }

    /// Whether `n` more slots can be reserved without exhausting this
    /// layer's serial counter or the address space.
    pub closed spec fn can_absorb(self, n: int) -> bool {
        self.local_nodes.can_absorb(n)
    }

    /// Begins merging this layer's nodes into `target`, a layer over the
    /// same structure below, as siblings: `Local` parent handles are
    /// rewritten through the remap, `External` parent handles (pointing
    /// below both layers) pass through unchanged.
    pub fn merge_aflat(self, target: Forest2<T, R>) -> (m: Forest2AflatInitMerger<T, R>)
        requires
            self.wf(),
            target.wf(),
            target.can_absorb(self.spec_slots()),
        ensures
            m.inv(),
            m.target_now() == local_keyed::<Node<T, Ref2<R>>, R>(target.nodes()),
            entries_distinct(m.remaining()),
            entries_map(m.remaining()) == local_keyed::<Node<T, Ref2<R>>, R>(self.nodes()),
            forall|r: Ref| #[trigger]
                m.rmap().contains_key(Ref2::<R>::Local(r)) <==> self.nodes().contains_key(r),
            forall|e: R| #[trigger]
                m.rmap().contains_key(Ref2::External(e)) && m.rmap()[Ref2::External(e)]
                    == Ref2::External(e),
            forall|k1: int, k2: int|
                0 <= k1 < k2 < m.remaining().len() ==> m.rmap()[(#[trigger] m.remaining()[k1]).0]
                    != m.rmap()[(#[trigger] m.remaining()[k2]).0],
            forall|k: int|
                0 <= k < m.remaining().len() ==> m.rmap().contains_key(
                    (#[trigger] m.remaining()[k]).0,
                ) && !m.target_now().contains_key(m.rmap()[m.remaining()[k].0]),
    {
        let ghost src = self;
        let ghost tg = target;
        let inner = target.local_nodes.merge(self.local_nodes);
        let m = Forest2AflatInitMerger(inner);
        proof {
            lemma_entries_map_local::<Node<T, Ref2<R>>, R>(inner.remaining());
            let rem = m.remaining();
            assert forall|k: int| 0 <= k < rem.len() implies m.rmap().contains_key(
                (#[trigger] rem[k]).0,
            ) && !m.target_now().contains_key(m.rmap()[rem[k].0]) by {
                assert(rem[k] == (Ref2::<R>::Local(inner.remaining()[k].0), inner.remaining()[k].1));
                crate::merge::lemma_entries_map_index(inner.remaining(), k);
                assert(inner.rmap().contains_key(inner.remaining()[k].0));
            }
            assert forall|k1: int, k2: int| 0 <= k1 < k2 < rem.len() implies m.rmap()[(
            #[trigger] rem[k1]).0] != m.rmap()[(#[trigger] rem[k2]).0] by {
                let i1 = inner.remaining()[k1].0;
                let i2 = inner.remaining()[k2].0;
                assert(rem[k1] == (Ref2::<R>::Local(i1), inner.remaining()[k1].1));
                assert(rem[k2] == (Ref2::<R>::Local(i2), inner.remaining()[k2].1));
                crate::merge::lemma_entries_map_index(inner.remaining(), k1);
                crate::merge::lemma_entries_map_index(inner.remaining(), k2);
                assert(i1 != i2);
                assert(inner.rmap()[i1] != inner.rmap()[i2]);
            }
            assert(entries_distinct(m.remaining())) by {
                assert forall|k1: int, k2: int| 0 <= k1 < k2 < rem.len() implies (
                #[trigger] rem[k1]).0 != (#[trigger] rem[k2]).0 by {
                    assert(rem[k1] == (
                        Ref2::<R>::Local(inner.remaining()[k1].0),
                        inner.remaining()[k1].1,
                    ));
                    assert(rem[k2] == (
                        Ref2::<R>::Local(inner.remaining()[k2].0),
                        inner.remaining()[k2].1,
                    ));
                }
            }
        }
        m
    }
}

/// A sibling merge of two stacked layers whose reservation phase is
/// complete.
pub struct Forest2AflatInitMerger<T, R>(
    SetsInitMerger<Node<T, Ref2<R>>, Node<T, Ref2<R>>>,
);

/// A sibling merge of two stacked layers being driven item by item.
pub struct Forest2AflatInProgressMerger<T, R> {
    inner_merger: SetsInProgressMerger<Node<T, Ref2<R>>, Node<T, Ref2<R>>>,
    parent: Option<Ref2<R>>,
    depth: usize,
}

impl<T, R> Forest2AflatInProgressMerger<T, R> {
    /// Wraps one step of the underlying arena merge, lifting handles into
    /// this layer's reference space.
    fn make_state(
        inner_state: MergeState<
            Ref,
            Node<T, Ref2<R>>,
            SetsInProgressMerger<Node<T, Ref2<R>>, Node<T, Ref2<R>>>,
            Arena<Node<T, Ref2<R>>>,
            Arena<Node<T, Ref2<R>>>,
        >,
        Ghost(rmap): Ghost<Map<Ref, Ref>>,
        Ghost(tgt): Ghost<Map<Ref, Node<T, Ref2<R>>>>,
        Ghost(rem): Ghost<Seq<(Ref, Node<T, Ref2<R>>)>>,
    ) -> (st: MergeState<
        Ref2<R>,
        T,
        Forest2AflatInProgressMerger<T, R>,
        Forest2<T, R>,
        Forest2<T, R>,
    >)
        requires
            merge_state_inv::<
                Ref,
                Ref,
                Node<T, Ref2<R>>,
                Node<T, Ref2<R>>,
                Arena<Node<T, Ref2<R>>>,
                Arena<Node<T, Ref2<R>>>,
                SetsInProgressMerger<Node<T, Ref2<R>>, Node<T, Ref2<R>>>,
            >(inner_state, rmap, tgt, rem),
        ensures
            match st {
                MergeState::Continue { item_ref, item, next } => {
                    &&& rem.len() > 0
                    &&& item_ref == Ref2::<R>::Local(rem[0].0)
                    &&& item == rem[0].1.item
                    &&& next.inner_merger.inv()
                    &&& next.inner_merger.rmap() == rmap
                    &&& next.inner_merger.target_now() == tgt
                    &&& next.inner_merger.remaining() == rem.drop_first()
                    &&& next.inner_merger.cur_src() == rem[0].1
                    &&& next.parent == rem[0].1.parent
                    &&& next.depth == rem[0].1.depth
                    &&& rmap.contains_key(rem[0].0)
                    &&& next.inner_merger.pending() == rmap[rem[0].0]
                    &&& !tgt.contains_key(rmap[rem[0].0])
                },
                MergeState::Finish { merged, empty } => {
                    &&& rem.len() == 0
                    &&& merged.nodes() == tgt
                    &&& merged.wf()
                    &&& empty.wf()
                    &&& empty.nodes() == Map::<Ref, Node<T, Ref2<R>>>::empty()
                },
            },
    {
        match inner_state {
            MergeState::Continue { item_ref, item: node, next } => {
                let Node { item, parent, depth } = node;
                MergeState::Continue {
                    item_ref: Ref2::Local(item_ref),
                    item,
                    next: Forest2AflatInProgressMerger { inner_merger: next, parent, depth },
                }
            },
            MergeState::Finish { merged, empty } => MergeState::Finish {
                merged: Forest2 { local_nodes: merged },
                empty: Forest2 { local_nodes: empty },
            },
        }
    }
}

impl<T, R> InitMerger<
    Ref2<R>,
    Ref2<R>,
    T,
    T,
    Forest2AflatInProgressMerger<T, R>,
    Forest2<T, R>,
    Forest2<T, R>,
> for Forest2AflatInitMerger<T, R> {
    closed spec fn inv(&self) -> bool {
        self.0.inv()
    }

    closed spec fn rmap(&self) -> Map<Ref2<R>, Ref2<R>> {
        lift_aflat_rmap(self.0.rmap())
    }

    closed spec fn target_now(&self) -> Map<Ref2<R>, Node<T, Ref2<R>>> {
        local_keyed(self.0.target_now())
    }

    closed spec fn remaining(&self) -> Seq<(Ref2<R>, Node<T, Ref2<R>>)> {
        local_entries(self.0.remaining())
    }

    fn ref_transform(&self, source_ref: Ref2<R>) -> (r: Option<Ref2<R>>) {
        match source_ref {
            Ref2::Local(local_ref) => {
                match self.0.ref_transform(local_ref) {
                    Some(target_ref) => Some(Ref2::Local(target_ref)),
                    None => None,
                }
            },
            Ref2::External(external_ref) => Some(Ref2::External(external_ref)),
        }
    }

    fn merge_start(self) -> (st: MergeState<
        Ref2<R>,
        T,
        Forest2AflatInProgressMerger<T, R>,
        Forest2<T, R>,
        Forest2<T, R>,
    >) {
        let Forest2AflatInitMerger(inner) = self;
        let ghost rmap = inner.rmap();
        let ghost tgt = inner.target_now();
        let ghost rem = inner.remaining();
        let inner_state = inner.merge_start();
        let st = Forest2AflatInProgressMerger::make_state(
            inner_state,
            Ghost(rmap),
            Ghost(tgt),
            Ghost(rem),
        );
        proof {
            lemma_aflat_lift_facts::<T, R>(rmap, tgt, rem);
        }
        st
    }
}

/// The lifted views of one arena-level step, spelled out for the layer
/// level: indexing, dropping the first entry, and remap lookups all commute
/// with `Local` wrapping.
proof fn lemma_aflat_lift_facts<T, R>(
    rmap: Map<Ref, Ref>,
    tgt: Map<Ref, Node<T, Ref2<R>>>,
    rem: Seq<(Ref, Node<T, Ref2<R>>)>,
)
    ensures
        local_entries::<Node<T, Ref2<R>>, R>(rem).len() == rem.len(),
        rem.len() > 0 ==> ({
            &&& local_entries::<Node<T, Ref2<R>>, R>(rem)[0] == (
                Ref2::<R>::Local(rem[0].0),
                rem[0].1,
            )
            &&& local_entries::<Node<T, Ref2<R>>, R>(rem).drop_first() == local_entries::<
                Node<T, Ref2<R>>,
                R,
            >(rem.drop_first())
            &&& rmap.contains_key(rem[0].0) ==> ({
                &&& lift_aflat_rmap::<R>(rmap).contains_key(Ref2::<R>::Local(rem[0].0))
                &&& lift_aflat_rmap::<R>(rmap)[Ref2::<R>::Local(rem[0].0)] == Ref2::<R>::Local(
                    rmap[rem[0].0],
                )
                &&& !tgt.contains_key(rmap[rem[0].0]) ==> !local_keyed::<
                    Node<T, Ref2<R>>,
                    R,
                >(tgt).contains_key(Ref2::<R>::Local(rmap[rem[0].0]))
            })
        }),
{
    if rem.len() > 0 {
        lemma_local_entries_drop_first::<Node<T, Ref2<R>>, R>(rem);
    }
}

/// The sibling-merge remap: this layer's own handles are relocated through
/// the arena remap, references into the layers below pass through.
pub open spec fn lift_aflat_rmap<R>(m: Map<Ref, Ref>) -> Map<Ref2<R>, Ref2<R>> {
    Map::new(
        |sr: Ref2<R>|
            match sr {
                Ref2::Local(r) => m.contains_key(r),
                Ref2::External(_) => true,
            },
        |sr: Ref2<R>|
            match sr {
                Ref2::Local(r) => Ref2::Local(m[r]),
                Ref2::External(e) => Ref2::External(e),
            },
    )
}

impl<T, R> InProgressMerger<Ref2<R>, Ref2<R>, T, T, Forest2<T, R>, Forest2<T, R>> for Forest2AflatInProgressMerger<
    T,
    R,
> {
    type Src = Node<T, Ref2<R>>;

    type Stored = Node<T, Ref2<R>>;

    closed spec fn inv(&self) -> bool {
        &&& self.inner_merger.inv()
        &&& self.parent == self.inner_merger.cur_src().parent
        &&& self.depth == self.inner_merger.cur_src().depth
    }

    closed spec fn rmap(&self) -> Map<Ref2<R>, Ref2<R>> {
        lift_aflat_rmap(self.inner_merger.rmap())
    }

    closed spec fn target_now(&self) -> Map<Ref2<R>, Node<T, Ref2<R>>> {
        local_keyed(self.inner_merger.target_now())
    }

    closed spec fn remaining(&self) -> Seq<(Ref2<R>, Node<T, Ref2<R>>)> {
        local_entries(self.inner_merger.remaining())
    }

    closed spec fn cur_src(&self) -> Node<T, Ref2<R>> {
        self.inner_merger.cur_src()
    }

    closed spec fn pending(&self) -> Ref2<R> {
        Ref2::Local(self.inner_merger.pending())
    }

    open spec fn item_of(s: Node<T, Ref2<R>>) -> T {
        s.item
    }

    /// A relocated node keeps its payload and cached depth; a `Local`
    /// parent handle is rewritten through the remap (or dropped if the
    /// parent was not relocated), an `External` one passes through.
    open spec fn restore(rmap: Map<Ref2<R>, Ref2<R>>, s: Node<T, Ref2<R>>, ti: T) -> Node<
        T,
        Ref2<R>,
    > {
        Node {
            item: ti,
            parent: match s.parent {
                Some(p) => if rmap.contains_key(p) {
                    Some(rmap[p])
                } else {
                    None
                },
                None => None,
            },
            depth: s.depth,
        }
    }

    open spec fn merged_items(fm: &Forest2<T, R>) -> Map<Ref2<R>, Node<T, Ref2<R>>> {
        local_keyed(fm.nodes())
    }

    open spec fn merged_ok(fm: &Forest2<T, R>) -> bool {
        fm.wf()
    }

    open spec fn empty_ok(fe: &Forest2<T, R>) -> bool {
        fe.wf() && fe.nodes() == Map::<Ref, Node<T, Ref2<R>>>::empty()
    }

    fn ref_transform(&self, source_ref: Ref2<R>) -> (r: Option<Ref2<R>>) {
        match source_ref {
            Ref2::Local(local_ref) => {
                match self.inner_merger.ref_transform(local_ref) {
                    Some(target_ref) => Some(Ref2::Local(target_ref)),
                    None => None,
                }
            },
            Ref2::External(external_ref) => Some(Ref2::External(external_ref)),
        }
    }

    fn proceed(self, transformed_item: T) -> (st: MergeState<
        Ref2<R>,
        T,
        Forest2AflatInProgressMerger<T, R>,
        Forest2<T, R>,
        Forest2<T, R>,
    >) {
        let ghost me = self;
        let Forest2AflatInProgressMerger { inner_merger, parent, depth } = self;
        let new_parent: Option<Ref2<R>> = match parent {
            Some(Ref2::Local(p)) => {
                match inner_merger.ref_transform(p) {
                    Some(t) => Some(Ref2::Local(t)),
                    None => None,
                }
            },
            Some(Ref2::External(e)) => Some(Ref2::External(e)),
            None => None,
        };
        let node = Node { item: transformed_item, parent: new_parent, depth };
        let ghost rmap = inner_merger.rmap();
        let ghost tgt2 = inner_merger.target_now().insert(inner_merger.pending(), node);
        let ghost rem = inner_merger.remaining();
        proof {
            assert(node == Forest2AflatInProgressMerger::<T, R>::restore(
                lift_aflat_rmap(rmap),
                me.inner_merger.cur_src(),
                transformed_item,
            ));
        }
        let inner_state = inner_merger.proceed(node);
        let st = Forest2AflatInProgressMerger::make_state(
            inner_state,
            Ghost(rmap),
            Ghost(tgt2),
            Ghost(rem),
        );
        proof {
            lemma_aflat_lift_facts::<T, R>(rmap, tgt2, rem);
            lemma_local_keyed_insert::<Node<T, Ref2<R>>, R>(
                me.inner_merger.target_now(),
                me.inner_merger.pending(),
                node,
            );
        }
        st
    }
}

/// The layer-collapsing remap one level above a self-contained forest:
/// this layer's own handles are relocated through the arena remap into
/// plain handles of the forest below; `External` handles already name slots
/// of that forest and pass through, stripped of their wrapper.
pub open spec fn lift_down1_rmap(m: Map<Ref, Ref>) -> Map<Ref2<Ref>, Ref> {
    Map::new(
        |sr: Ref2<Ref>|
            match sr {
                Ref2::Local(r) => m.contains_key(r),
                Ref2::External(_) => true,
            },
        |sr: Ref2<Ref>|
            match sr {
                Ref2::Local(r) => m[r],
                Ref2::External(e) => e,
            },
    )
}

impl<T> Forest2<T, Ref> {
    /// Begins collapsing this layer into the self-contained forest it sits
    /// on: every node of this layer is relocated into `target`; a `Local`
    /// parent handle is rewritten through the remap into a plain handle of
    /// `target`, an `External` one already names a `target` slot and passes
    /// through unwrapped.
    pub fn merge_down(self, target: Forest1<T>) -> (m: Forest2Down1InitMerger<T>)
        requires
            self.wf(),
            target.wf(),
            target.can_absorb(self.spec_slots()),
        ensures
            m.inv(),
            m.target_now() == target.nodes(),
            entries_distinct(m.remaining()),
            entries_map(m.remaining()) == local_keyed::<Node<T, Ref2<Ref>>, Ref>(self.nodes()),
            forall|r: Ref| #[trigger]
                m.rmap().contains_key(Ref2::<Ref>::Local(r)) <==> self.nodes().contains_key(r),
            forall|e: Ref| #[trigger]
                m.rmap().contains_key(Ref2::External(e)) && m.rmap()[Ref2::External(e)] == e,
            forall|k1: int, k2: int|
                0 <= k1 < k2 < m.remaining().len() ==> m.rmap()[(#[trigger] m.remaining()[k1]).0]
                    != m.rmap()[(#[trigger] m.remaining()[k2]).0],
            forall|k: int|
                0 <= k < m.remaining().len() ==> m.rmap().contains_key(
                    (#[trigger] m.remaining()[k]).0,
                ) && !m.target_now().contains_key(m.rmap()[m.remaining()[k].0]),
    {
        let inner = target.nodes.merge(self.local_nodes);
        let m = Forest2Down1InitMerger(inner);
        proof {
            lemma_entries_map_local::<Node<T, Ref2<Ref>>, Ref>(inner.remaining());
            let rem = m.remaining();
            assert forall|k: int| 0 <= k < rem.len() implies m.rmap().contains_key(
                (#[trigger] rem[k]).0,
            ) && !m.target_now().contains_key(m.rmap()[rem[k].0]) by {
                assert(rem[k] == (
                    Ref2::<Ref>::Local(inner.remaining()[k].0),
                    inner.remaining()[k].1,
                ));
                crate::merge::lemma_entries_map_index(inner.remaining(), k);
                assert(inner.rmap().contains_key(inner.remaining()[k].0));
            }
            assert forall|k1: int, k2: int| 0 <= k1 < k2 < rem.len() implies m.rmap()[(
            #[trigger] rem[k1]).0] != m.rmap()[(#[trigger] rem[k2]).0] by {
                let i1 = inner.remaining()[k1].0;
                let i2 = inner.remaining()[k2].0;
                assert(rem[k1] == (Ref2::<Ref>::Local(i1), inner.remaining()[k1].1));
                assert(rem[k2] == (Ref2::<Ref>::Local(i2), inner.remaining()[k2].1));
                crate::merge::lemma_entries_map_index(inner.remaining(), k1);
                crate::merge::lemma_entries_map_index(inner.remaining(), k2);
                assert(i1 != i2);
                assert(inner.rmap()[i1] != inner.rmap()[i2]);
            }
            assert(entries_distinct(m.remaining())) by {
                assert forall|k1: int, k2: int| 0 <= k1 < k2 < rem.len() implies (
                #[trigger] rem[k1]).0 != (#[trigger] rem[k2]).0 by {
                    assert(rem[k1] == (
                        Ref2::<Ref>::Local(inner.remaining()[k1].0),
                        inner.remaining()[k1].1,
                    ));
                    assert(rem[k2] == (
                        Ref2::<Ref>::Local(inner.remaining()[k2].0),
                        inner.remaining()[k2].1,
                    ));
                }
            }
        }
        m
    }
}

/// A layer-collapsing merge into a self-contained forest whose reservation
/// phase is complete.
pub struct Forest2Down1InitMerger<T>(SetsInitMerger<Node<T, Ref2<Ref>>, Node<T, Ref>>);

/// A layer-collapsing merge into a self-contained forest being driven item
/// by item.
pub struct Forest2Down1InProgressMerger<T> {
    inner_merger: SetsInProgressMerger<Node<T, Ref2<Ref>>, Node<T, Ref>>,
    parent: Option<Ref2<Ref>>,
    depth: usize,
}

impl<T> Forest2Down1InProgressMerger<T> {
    /// Wraps one step of the underlying arena merge.
    fn make_state(
        inner_state: MergeState<
            Ref,
            Node<T, Ref2<Ref>>,
            SetsInProgressMerger<Node<T, Ref2<Ref>>, Node<T, Ref>>,
            Arena<Node<T, Ref>>,
            Arena<Node<T, Ref2<Ref>>>,
        >,
        Ghost(rmap): Ghost<Map<Ref, Ref>>,
        Ghost(tgt): Ghost<Map<Ref, Node<T, Ref>>>,
        Ghost(rem): Ghost<Seq<(Ref, Node<T, Ref2<Ref>>)>>,
    ) -> (st: MergeState<Ref2<Ref>, T, Forest2Down1InProgressMerger<T>, Forest1<T>, Forest2<
        T,
        Ref,
    >>)
        requires
            merge_state_inv::<
                Ref,
                Ref,
                Node<T, Ref2<Ref>>,
                Node<T, Ref>,
                Arena<Node<T, Ref>>,
                Arena<Node<T, Ref2<Ref>>>,
                SetsInProgressMerger<Node<T, Ref2<Ref>>, Node<T, Ref>>,
            >(inner_state, rmap, tgt, rem),
        ensures
            match st {
                MergeState::Continue { item_ref, item, next } => {
                    &&& rem.len() > 0
                    &&& item_ref == Ref2::<Ref>::Local(rem[0].0)
                    &&& item == rem[0].1.item
                    &&& next.inner_merger.inv()
                    &&& next.inner_merger.rmap() == rmap
                    &&& next.inner_merger.target_now() == tgt
                    &&& next.inner_merger.remaining() == rem.drop_first()
                    &&& next.inner_merger.cur_src() == rem[0].1
                    &&& next.parent == rem[0].1.parent
                    &&& next.depth == rem[0].1.depth
                    &&& rmap.contains_key(rem[0].0)
                    &&& next.inner_merger.pending() == rmap[rem[0].0]
                    &&& !tgt.contains_key(rmap[rem[0].0])
                },
                MergeState::Finish { merged, empty } => {
                    &&& rem.len() == 0
                    &&& merged.nodes() == tgt
                    &&& merged.wf()
                    &&& empty.wf()
                    &&& empty.nodes() == Map::<Ref, Node<T, Ref2<Ref>>>::empty()
                },
            },
    {
        match inner_state {
            MergeState::Continue { item_ref, item: node, next } => {
                let Node { item, parent, depth } = node;
                MergeState::Continue {
                    item_ref: Ref2::Local(item_ref),
                    item,
                    next: Forest2Down1InProgressMerger { inner_merger: next, parent, depth },
                }
            },
            MergeState::Finish { merged, empty } => MergeState::Finish {
                merged: Forest1 { nodes: merged },
                empty: Forest2 { local_nodes: empty },
            },
        }
    }
}

/// The remap lookups of the layer-collapsing merge, spelled out.
proof fn lemma_down1_lift_facts<T>(
    rmap: Map<Ref, Ref>,
    tgt: Map<Ref, Node<T, Ref>>,
    rem: Seq<(Ref, Node<T, Ref2<Ref>>)>,
)
    ensures
        local_entries::<Node<T, Ref2<Ref>>, Ref>(rem).len() == rem.len(),
        rem.len() > 0 ==> ({
            &&& local_entries::<Node<T, Ref2<Ref>>, Ref>(rem)[0] == (
                Ref2::<Ref>::Local(rem[0].0),
                rem[0].1,
            )
            &&& local_entries::<Node<T, Ref2<Ref>>, Ref>(rem).drop_first() == local_entries::<
                Node<T, Ref2<Ref>>,
                Ref,
            >(rem.drop_first())
            &&& rmap.contains_key(rem[0].0) ==> ({
                &&& lift_down1_rmap(rmap).contains_key(Ref2::<Ref>::Local(rem[0].0))
                &&& lift_down1_rmap(rmap)[Ref2::<Ref>::Local(rem[0].0)] == rmap[rem[0].0]
            })
        }),
{
    if rem.len() > 0 {
        lemma_local_entries_drop_first::<Node<T, Ref2<Ref>>, Ref>(rem);
    }
}

impl<T> InitMerger<
    Ref2<Ref>,
    Ref,
    T,
    T,
    Forest2Down1InProgressMerger<T>,
    Forest1<T>,
    Forest2<T, Ref>,
> for Forest2Down1InitMerger<T> {
    closed spec fn inv(&self) -> bool {
        self.0.inv()
    }

    closed spec fn rmap(&self) -> Map<Ref2<Ref>, Ref> {
        lift_down1_rmap(self.0.rmap())
    }

    closed spec fn target_now(&self) -> Map<Ref, Node<T, Ref>> {
        self.0.target_now()
    }

    closed spec fn remaining(&self) -> Seq<(Ref2<Ref>, Node<T, Ref2<Ref>>)> {
        local_entries(self.0.remaining())
    }

    fn ref_transform(&self, source_ref: Ref2<Ref>) -> (r: Option<Ref>) {
        match source_ref {
            Ref2::Local(local_ref) => self.0.ref_transform(local_ref),
            Ref2::External(external_ref) => Some(external_ref),
        }
    }

    fn merge_start(self) -> (st: MergeState<
        Ref2<Ref>,
        T,
        Forest2Down1InProgressMerger<T>,
        Forest1<T>,
        Forest2<T, Ref>,
    >) {
        let Forest2Down1InitMerger(inner) = self;
        let ghost rmap = inner.rmap();
        let ghost tgt = inner.target_now();
        let ghost rem = inner.remaining();
        let inner_state = inner.merge_start();
        let st = Forest2Down1InProgressMerger::make_state(
            inner_state,
            Ghost(rmap),
            Ghost(tgt),
            Ghost(rem),
        );
        proof {
            lemma_down1_lift_facts::<T>(rmap, tgt, rem);
        }
        st
    }
}

impl<T> InProgressMerger<Ref2<Ref>, Ref, T, T, Forest1<T>, Forest2<T, Ref>> for Forest2Down1InProgressMerger<
    T,
> {
    type Src = Node<T, Ref2<Ref>>;

    type Stored = Node<T, Ref>;

    closed spec fn inv(&self) -> bool {
        &&& self.inner_merger.inv()
        &&& self.parent == self.inner_merger.cur_src().parent
        &&& self.depth == self.inner_merger.cur_src().depth
    }

    closed spec fn rmap(&self) -> Map<Ref2<Ref>, Ref> {
        lift_down1_rmap(self.inner_merger.rmap())
    }

    closed spec fn target_now(&self) -> Map<Ref, Node<T, Ref>> {
        self.inner_merger.target_now()
    }

    closed spec fn remaining(&self) -> Seq<(Ref2<Ref>, Node<T, Ref2<Ref>>)> {
        local_entries(self.inner_merger.remaining())
    }

    closed spec fn cur_src(&self) -> Node<T, Ref2<Ref>> {
        self.inner_merger.cur_src()
    }

    closed spec fn pending(&self) -> Ref {
        self.inner_merger.pending()
    }

    open spec fn item_of(s: Node<T, Ref2<Ref>>) -> T {
        s.item
    }

    /// A relocated node keeps its payload and cached depth; a `Local`
    /// parent is rewritten into a plain handle of the forest below (or
    /// dropped if it was not relocated), an `External` one already names a
    /// slot there and is unwrapped.
    open spec fn restore(rmap: Map<Ref2<Ref>, Ref>, s: Node<T, Ref2<Ref>>, ti: T) -> Node<
        T,
        Ref,
    > {
        Node {
            item: ti,
            parent: match s.parent {
                Some(p) => if rmap.contains_key(p) {
                    Some(rmap[p])
                } else {
                    None
                },
                None => None,
            },
            depth: s.depth,
        }
    }

    open spec fn merged_items(fm: &Forest1<T>) -> Map<Ref, Node<T, Ref>> {
        fm.nodes()
    }

    open spec fn merged_ok(fm: &Forest1<T>) -> bool {
        fm.wf()
    }

    open spec fn empty_ok(fe: &Forest2<T, Ref>) -> bool {
        fe.wf() && fe.nodes() == Map::<Ref, Node<T, Ref2<Ref>>>::empty()
    }

    fn ref_transform(&self, source_ref: Ref2<Ref>) -> (r: Option<Ref>) {
        match source_ref {
            Ref2::Local(local_ref) => self.inner_merger.ref_transform(local_ref),
            Ref2::External(external_ref) => Some(external_ref),
        }
    }

    fn proceed(self, transformed_item: T) -> (st: MergeState<
        Ref2<Ref>,
        T,
        Forest2Down1InProgressMerger<T>,
        Forest1<T>,
        Forest2<T, Ref>,
    >) {
        let ghost me = self;
        let Forest2Down1InProgressMerger { inner_merger, parent, depth } = self;
        let new_parent: Option<Ref> = match parent {
            Some(Ref2::Local(p)) => inner_merger.ref_transform(p),
            Some(Ref2::External(e)) => Some(e),
            None => None,
        };
        let node = Node { item: transformed_item, parent: new_parent, depth };
        let ghost rmap = inner_merger.rmap();
        let ghost tgt2 = inner_merger.target_now().insert(inner_merger.pending(), node);
        let ghost rem = inner_merger.remaining();
        proof {
            assert(node == Forest2Down1InProgressMerger::<T>::restore(
                lift_down1_rmap(rmap),
                me.inner_merger.cur_src(),
                transformed_item,
            ));
        }
        let inner_state = inner_merger.proceed(node);
        let st = Forest2Down1InProgressMerger::make_state(
            inner_state,
            Ghost(rmap),
            Ghost(tgt2),
            Ghost(rem),
        );
        proof {
            lemma_down1_lift_facts::<T>(rmap, tgt2, rem);
        }
        st
    }
}

/// The layer-collapsing remap one level above another stacked layer: this
/// layer's own handles are relocated through the arena remap into `Local`
/// handles of the layer below; `External` handles already belong to that
/// layer's reference space and pass through, stripped of one wrapper.
pub open spec fn lift_down2_rmap<R>(m: Map<Ref, Ref>) -> Map<Ref2<Ref2<R>>, Ref2<R>> {
    Map::new(
        |sr: Ref2<Ref2<R>>|
            match sr {
                Ref2::Local(r) => m.contains_key(r),
                Ref2::External(_) => true,
            },
        |sr: Ref2<Ref2<R>>|
            match sr {
                Ref2::Local(r) => Ref2::Local(m[r]),
                Ref2::External(e) => e,
            },
    )
}

impl<T, R> Forest2<T, Ref2<R>> {
    /// Begins collapsing this layer into the stacked layer it sits on:
    /// every node of this layer is relocated into `target`; a `Local`
    /// parent handle is rewritten through the remap into a `Local` handle
    /// of `target`, an `External` one already belongs to `target`'s
    /// reference space and passes through, stripped of one wrapper.
    pub fn merge_down(self, target: Forest2<T, R>) -> (m: Forest2Down2InitMerger<T, R>)
        requires
            self.wf(),
            target.wf(),
            target.can_absorb(self.spec_slots()),
        ensures
            m.inv(),
            m.target_now() == local_keyed::<Node<T, Ref2<R>>, R>(target.nodes()),
            entries_distinct(m.remaining()),
            entries_map(m.remaining()) == local_keyed::<Node<T, Ref2<Ref2<R>>>, Ref2<R>>(
                self.nodes(),
            ),
            forall|r: Ref| #[trigger]
                m.rmap().contains_key(Ref2::<Ref2<R>>::Local(r)) <==> self.nodes().contains_key(
                    r,
                ),
            forall|e: Ref2<R>| #[trigger]
                m.rmap().contains_key(Ref2::External(e)) && m.rmap()[Ref2::External(e)] == e,
            forall|k1: int, k2: int|
                0 <= k1 < k2 < m.remaining().len() ==> m.rmap()[(#[trigger] m.remaining()[k1]).0]
                    != m.rmap()[(#[trigger] m.remaining()[k2]).0],
            forall|k: int|
                0 <= k < m.remaining().len() ==> m.rmap().contains_key(
                    (#[trigger] m.remaining()[k]).0,
                ) && !m.target_now().contains_key(m.rmap()[m.remaining()[k].0]),
    {
        let inner = target.local_nodes.merge(self.local_nodes);
        let m = Forest2Down2InitMerger(inner);
        proof {
            lemma_entries_map_local::<Node<T, Ref2<Ref2<R>>>, Ref2<R>>(inner.remaining());
            let rem = m.remaining();
            assert forall|k: int| 0 <= k < rem.len() implies m.rmap().contains_key(
                (#[trigger] rem[k]).0,
            ) && !m.target_now().contains_key(m.rmap()[rem[k].0]) by {
                assert(rem[k] == (
                    Ref2::<Ref2<R>>::Local(inner.remaining()[k].0),
                    inner.remaining()[k].1,
                ));
                crate::merge::lemma_entries_map_index(inner.remaining(), k);
                assert(inner.rmap().contains_key(inner.remaining()[k].0));
            }
            assert forall|k1: int, k2: int| 0 <= k1 < k2 < rem.len() implies m.rmap()[(
            #[trigger] rem[k1]).0] != m.rmap()[(#[trigger] rem[k2]).0] by {
                let i1 = inner.remaining()[k1].0;
                let i2 = inner.remaining()[k2].0;
                assert(rem[k1] == (Ref2::<Ref2<R>>::Local(i1), inner.remaining()[k1].1));
                assert(rem[k2] == (Ref2::<Ref2<R>>::Local(i2), inner.remaining()[k2].1));
                crate::merge::lemma_entries_map_index(inner.remaining(), k1);
                crate::merge::lemma_entries_map_index(inner.remaining(), k2);
                assert(i1 != i2);
                assert(inner.rmap()[i1] != inner.rmap()[i2]);
            }
            assert(entries_distinct(m.remaining())) by {
                assert forall|k1: int, k2: int| 0 <= k1 < k2 < rem.len() implies (
                #[trigger] rem[k1]).0 != (#[trigger] rem[k2]).0 by {
                    assert(rem[k1] == (
                        Ref2::<Ref2<R>>::Local(inner.remaining()[k1].0),
                        inner.remaining()[k1].1,
                    ));
                    assert(rem[k2] == (
                        Ref2::<Ref2<R>>::Local(inner.remaining()[k2].0),
                        inner.remaining()[k2].1,
                    ));
                }
            }
        }
        m
    }
}

/// A layer-collapsing merge into another stacked layer whose reservation
/// phase is complete.
pub struct Forest2Down2InitMerger<T, R>(
    SetsInitMerger<Node<T, Ref2<Ref2<R>>>, Node<T, Ref2<R>>>,
);

/// A layer-collapsing merge into another stacked layer being driven item by
/// item.
pub struct Forest2Down2InProgressMerger<T, R> {
    inner_merger: SetsInProgressMerger<Node<T, Ref2<Ref2<R>>>, Node<T, Ref2<R>>>,
    parent: Option<Ref2<Ref2<R>>>,
    depth: usize,
}

impl<T, R> Forest2Down2InProgressMerger<T, R> {
    /// Wraps one step of the underlying arena merge.
    fn make_state(
        inner_state: MergeState<
            Ref,
            Node<T, Ref2<Ref2<R>>>,
            SetsInProgressMerger<Node<T, Ref2<Ref2<R>>>, Node<T, Ref2<R>>>,
            Arena<Node<T, Ref2<R>>>,
            Arena<Node<T, Ref2<Ref2<R>>>>,
        >,
        Ghost(rmap): Ghost<Map<Ref, Ref>>,
        Ghost(tgt): Ghost<Map<Ref, Node<T, Ref2<R>>>>,
        Ghost(rem): Ghost<Seq<(Ref, Node<T, Ref2<Ref2<R>>>)>>,
    ) -> (st: MergeState<
        Ref2<Ref2<R>>,
        T,
        Forest2Down2InProgressMerger<T, R>,
        Forest2<T, R>,
        Forest2<T, Ref2<R>>,
    >)
        requires
            merge_state_inv::<
                Ref,
                Ref,
                Node<T, Ref2<Ref2<R>>>,
                Node<T, Ref2<R>>,
                Arena<Node<T, Ref2<R>>>,
                Arena<Node<T, Ref2<Ref2<R>>>>,
                SetsInProgressMerger<Node<T, Ref2<Ref2<R>>>, Node<T, Ref2<R>>>,
            >(inner_state, rmap, tgt, rem),
        ensures
            match st {
                MergeState::Continue { item_ref, item, next } => {
                    &&& rem.len() > 0
                    &&& item_ref == Ref2::<Ref2<R>>::Local(rem[0].0)
                    &&& item == rem[0].1.item
                    &&& next.inner_merger.inv()
                    &&& next.inner_merger.rmap() == rmap
                    &&& next.inner_merger.target_now() == tgt
                    &&& next.inner_merger.remaining() == rem.drop_first()
                    &&& next.inner_merger.cur_src() == rem[0].1
                    &&& next.parent == rem[0].1.parent
                    &&& next.depth == rem[0].1.depth
                    &&& rmap.contains_key(rem[0].0)
                    &&& next.inner_merger.pending() == rmap[rem[0].0]
                    &&& !tgt.contains_key(rmap[rem[0].0])
                },
                MergeState::Finish { merged, empty } => {
                    &&& rem.len() == 0
                    &&& merged.nodes() == tgt
                    &&& merged.wf()
                    &&& empty.wf()
                    &&& empty.nodes() == Map::<Ref, Node<T, Ref2<Ref2<R>>>>::empty()
                },
            },
    {
        match inner_state {
            MergeState::Continue { item_ref, item: node, next } => {
                let Node { item, parent, depth } = node;
                MergeState::Continue {
                    item_ref: Ref2::Local(item_ref),
                    item,
                    next: Forest2Down2InProgressMerger { inner_merger: next, parent, depth },
                }
            },
            MergeState::Finish { merged, empty } => MergeState::Finish {
                merged: Forest2 { local_nodes: merged },
                empty: Forest2 { local_nodes: empty },
            },
        }
    }
}

/// The lifted views of one arena-level step of the layer-collapsing merge.
proof fn lemma_down2_lift_facts<T, R>(
    rmap: Map<Ref, Ref>,
    tgt: Map<Ref, Node<T, Ref2<R>>>,
    rem: Seq<(Ref, Node<T, Ref2<Ref2<R>>>)>,
)
    ensures
        local_entries::<Node<T, Ref2<Ref2<R>>>, Ref2<R>>(rem).len() == rem.len(),
        rem.len() > 0 ==> ({
            &&& local_entries::<Node<T, Ref2<Ref2<R>>>, Ref2<R>>(rem)[0] == (
                Ref2::<Ref2<R>>::Local(rem[0].0),
                rem[0].1,
            )
            &&& local_entries::<Node<T, Ref2<Ref2<R>>>, Ref2<R>>(rem).drop_first()
                == local_entries::<Node<T, Ref2<Ref2<R>>>, Ref2<R>>(rem.drop_first())
            &&& rmap.contains_key(rem[0].0) ==> ({
                &&& lift_down2_rmap::<R>(rmap).contains_key(Ref2::<Ref2<R>>::Local(rem[0].0))
                &&& lift_down2_rmap::<R>(rmap)[Ref2::<Ref2<R>>::Local(rem[0].0)]
                    == Ref2::<R>::Local(rmap[rem[0].0])
                &&& !tgt.contains_key(rmap[rem[0].0]) ==> !local_keyed::<
                    Node<T, Ref2<R>>,
                    R,
                >(tgt).contains_key(Ref2::<R>::Local(rmap[rem[0].0]))
            })
        }),
{
    if rem.len() > 0 {
        lemma_local_entries_drop_first::<Node<T, Ref2<Ref2<R>>>, Ref2<R>>(rem);
    }
}

impl<T, R> InitMerger<
    Ref2<Ref2<R>>,
    Ref2<R>,
    T,
    T,
    Forest2Down2InProgressMerger<T, R>,
    Forest2<T, R>,
    Forest2<T, Ref2<R>>,
> for Forest2Down2InitMerger<T, R> {
    closed spec fn inv(&self) -> bool {
        self.0.inv()
    }

    closed spec fn rmap(&self) -> Map<Ref2<Ref2<R>>, Ref2<R>> {
        lift_down2_rmap(self.0.rmap())
    }

    closed spec fn target_now(&self) -> Map<Ref2<R>, Node<T, Ref2<R>>> {
        local_keyed(self.0.target_now())
    }

    closed spec fn remaining(&self) -> Seq<(Ref2<Ref2<R>>, Node<T, Ref2<Ref2<R>>>)> {
        local_entries(self.0.remaining())
    }

    fn ref_transform(&self, source_ref: Ref2<Ref2<R>>) -> (r: Option<Ref2<R>>) {
        match source_ref {
            Ref2::Local(local_ref) => {
                match self.0.ref_transform(local_ref) {
                    Some(target_ref) => Some(Ref2::Local(target_ref)),
                    None => None,
                }
            },
            Ref2::External(external_ref) => Some(external_ref),
        }
    }

    fn merge_start(self) -> (st: MergeState<
        Ref2<Ref2<R>>,
        T,
        Forest2Down2InProgressMerger<T, R>,
        Forest2<T, R>,
        Forest2<T, Ref2<R>>,
    >) {
        let Forest2Down2InitMerger(inner) = self;
        let ghost rmap = inner.rmap();
        let ghost tgt = inner.target_now();
        let ghost rem = inner.remaining();
        let inner_state = inner.merge_start();
        let st = Forest2Down2InProgressMerger::make_state(
            inner_state,
            Ghost(rmap),
            Ghost(tgt),
            Ghost(rem),
        );
        proof {
            lemma_down2_lift_facts::<T, R>(rmap, tgt, rem);
        }
        st
    }
}

impl<T, R> InProgressMerger<
    Ref2<Ref2<R>>,
    Ref2<R>,
    T,
    T,
    Forest2<T, R>,
    Forest2<T, Ref2<R>>,
> for Forest2Down2InProgressMerger<T, R> {
    type Src = Node<T, Ref2<Ref2<R>>>;

    type Stored = Node<T, Ref2<R>>;

    closed spec fn inv(&self) -> bool {
        &&& self.inner_merger.inv()
        &&& self.parent == self.inner_merger.cur_src().parent
        &&& self.depth == self.inner_merger.cur_src().depth
    }

    closed spec fn rmap(&self) -> Map<Ref2<Ref2<R>>, Ref2<R>> {
        lift_down2_rmap(self.inner_merger.rmap())
    }

    closed spec fn target_now(&self) -> Map<Ref2<R>, Node<T, Ref2<R>>> {
        local_keyed(self.inner_merger.target_now())
    }

    closed spec fn remaining(&self) -> Seq<(Ref2<Ref2<R>>, Node<T, Ref2<Ref2<R>>>)> {
        local_entries(self.inner_merger.remaining())
    }

    closed spec fn cur_src(&self) -> Node<T, Ref2<Ref2<R>>> {
        self.inner_merger.cur_src()
    }

    closed spec fn pending(&self) -> Ref2<R> {
        Ref2::Local(self.inner_merger.pending())
    }

    open spec fn item_of(s: Node<T, Ref2<Ref2<R>>>) -> T {
        s.item
    }

    /// A relocated node keeps its payload and cached depth; a `Local`
    /// parent is rewritten through the remap (or dropped if it was not
    /// relocated), an `External` one is unwrapped into the reference space
    /// of the layer below.
    open spec fn restore(
        rmap: Map<Ref2<Ref2<R>>, Ref2<R>>,
        s: Node<T, Ref2<Ref2<R>>>,
        ti: T,
    ) -> Node<T, Ref2<R>> {
        Node {
            item: ti,
            parent: match s.parent {
                Some(p) => if rmap.contains_key(p) {
                    Some(rmap[p])
                } else {
                    None
                },
                None => None,
            },
            depth: s.depth,
        }
    }

    open spec fn merged_items(fm: &Forest2<T, R>) -> Map<Ref2<R>, Node<T, Ref2<R>>> {
        local_keyed(fm.nodes())
    }

    open spec fn merged_ok(fm: &Forest2<T, R>) -> bool {
        fm.wf()
    }

    open spec fn empty_ok(fe: &Forest2<T, Ref2<R>>) -> bool {
        fe.wf() && fe.nodes() == Map::<Ref, Node<T, Ref2<Ref2<R>>>>::empty()
    }

    fn ref_transform(&self, source_ref: Ref2<Ref2<R>>) -> (r: Option<Ref2<R>>) {
        match source_ref {
            Ref2::Local(local_ref) => {
                match self.inner_merger.ref_transform(local_ref) {
                    Some(target_ref) => Some(Ref2::Local(target_ref)),
                    None => None,
                }
            },
            Ref2::External(external_ref) => Some(external_ref),
        }
    }

    fn proceed(self, transformed_item: T) -> (st: MergeState<
        Ref2<Ref2<R>>,
        T,
        Forest2Down2InProgressMerger<T, R>,
        Forest2<T, R>,
        Forest2<T, Ref2<R>>,
    >) {
        let ghost me = self;
        let Forest2Down2InProgressMerger { inner_merger, parent, depth } = self;
        let new_parent: Option<Ref2<R>> = match parent {
            Some(Ref2::Local(p)) => {
                match inner_merger.ref_transform(p) {
                    Some(t) => Some(Ref2::Local(t)),
                    None => None,
                }
            },
            Some(Ref2::External(e)) => Some(e),
            None => None,
        };
        let node = Node { item: transformed_item, parent: new_parent, depth };
        let ghost rmap = inner_merger.rmap();
        let ghost tgt2 = inner_merger.target_now().insert(inner_merger.pending(), node);
        let ghost rem = inner_merger.remaining();
        proof {
            assert(node == Forest2Down2InProgressMerger::<T, R>::restore(
                lift_down2_rmap(rmap),
                me.inner_merger.cur_src(),
                transformed_item,
            ));
        }
        let inner_state = inner_merger.proceed(node);
        let st = Forest2Down2InProgressMerger::make_state(
            inner_state,
            Ghost(rmap),
            Ghost(tgt2),
            Ghost(rem),
        );
        proof {
            lemma_down2_lift_facts::<T, R>(rmap, tgt2, rem);
            lemma_local_keyed_insert::<Node<T, Ref2<R>>, R>(
                me.inner_merger.target_now(),
                me.inner_merger.pending(),
                node,
            );
        }
        st
    }
}

/// Merge reference integrity for sibling merges of stacked layers: a
/// relocated node whose parent was itself relocated keeps a parent handle
/// that resolves to the relocated parent; an `External` parent handle
/// (pointing below both layers) passes through unchanged.
pub proof fn lemma_aflat_merge_reference_integrity<T, R>(
    rmap: Map<Ref2<R>, Ref2<R>>,
    tgt: Map<Ref2<R>, Node<T, Ref2<R>>>,
    rem: Seq<(Ref2<R>, Node<T, Ref2<R>>)>,
    k: int,
    kp: int,
)
    requires
        entries_distinct(rem),
        forall|q: int| 0 <= q < rem.len() ==> rmap.contains_key((#[trigger] rem[q]).0),
        forall|q1: int, q2: int|
            0 <= q1 < q2 < rem.len() ==> rmap[(#[trigger] rem[q1]).0] != rmap[(
            #[trigger] rem[q2]).0],
        forall|q: int| 0 <= q < rem.len() ==> !tgt.contains_key(rmap[(#[trigger] rem[q]).0]),
        0 <= k < rem.len(),
        0 <= kp < rem.len(),
        rem[k].1.parent == Some(rem[kp].0),
    ensures
        ({
            let res = crate::merge::identity_merge_result::<
                Ref2<R>,
                Ref2<R>,
                T,
                Forest2<T, R>,
                Forest2<T, R>,
                Forest2AflatInProgressMerger<T, R>,
            >(rmap, tgt, rem);
            let p = rem[kp].0;
            &&& res.contains_key(rmap[rem[k].0])
            &&& res[rmap[rem[k].0]].item == rem[k].1.item
            &&& res[rmap[rem[k].0]].depth == rem[k].1.depth
            &&& res[rmap[rem[k].0]].parent == Some(rmap[p])
            &&& res.contains_key(rmap[p])
            &&& res[rmap[p]].item == rem[kp].1.item
        }),
{
    lemma_merge_completeness::<
        Ref2<R>,
        Ref2<R>,
        T,
        Forest2<T, R>,
        Forest2<T, R>,
        Forest2AflatInProgressMerger<T, R>,
    >(rmap, tgt, rem);
}

/// Merge reference integrity for collapsing a layer into the stacked layer
/// below it, in the same form.
pub proof fn lemma_down2_merge_reference_integrity<T, R>(
    rmap: Map<Ref2<Ref2<R>>, Ref2<R>>,
    tgt: Map<Ref2<R>, Node<T, Ref2<R>>>,
    rem: Seq<(Ref2<Ref2<R>>, Node<T, Ref2<Ref2<R>>>)>,
    k: int,
    kp: int,
)
    requires
        entries_distinct(rem),
        forall|q: int| 0 <= q < rem.len() ==> rmap.contains_key((#[trigger] rem[q]).0),
        forall|q1: int, q2: int|
            0 <= q1 < q2 < rem.len() ==> rmap[(#[trigger] rem[q1]).0] != rmap[(
            #[trigger] rem[q2]).0],
        forall|q: int| 0 <= q < rem.len() ==> !tgt.contains_key(rmap[(#[trigger] rem[q]).0]),
        0 <= k < rem.len(),
        0 <= kp < rem.len(),
        rem[k].1.parent == Some(rem[kp].0),
    ensures
        ({
            let res = crate::merge::identity_merge_result::<
                Ref2<Ref2<R>>,
                Ref2<R>,
                T,
                Forest2<T, R>,
                Forest2<T, Ref2<R>>,
                Forest2Down2InProgressMerger<T, R>,
            >(rmap, tgt, rem);
            let p = rem[kp].0;
            &&& res.contains_key(rmap[rem[k].0])
            &&& res[rmap[rem[k].0]].item == rem[k].1.item
            &&& res[rmap[rem[k].0]].depth == rem[k].1.depth
            &&& res[rmap[rem[k].0]].parent == Some(rmap[p])
            &&& res.contains_key(rmap[p])
            &&& res[rmap[p]].item == rem[kp].1.item
        }),
{
    lemma_merge_completeness::<
        Ref2<Ref2<R>>,
        Ref2<R>,
        T,
        Forest2<T, R>,
        Forest2<T, Ref2<R>>,
        Forest2Down2InProgressMerger<T, R>,
    >(rmap, tgt, rem);
}

/// Merge reference integrity for layer-collapsing merges: a relocated node
/// whose parent was itself a relocated node of the collapsed layer keeps,
/// after a full identity drive, a parent handle that resolves to the
/// relocated parent node in the forest below — never to absence and never
/// to an unrelated node.  (An `External` parent handle instead passes
/// through unwrapped: the remap sends it to itself.)
pub proof fn lemma_merge_down_reference_integrity<T>(
    rmap: Map<Ref2<Ref>, Ref>,
    tgt: Map<Ref, Node<T, Ref>>,
    rem: Seq<(Ref2<Ref>, Node<T, Ref2<Ref>>)>,
    k: int,
    kp: int,
)
    requires
        entries_distinct(rem),
        forall|q: int| 0 <= q < rem.len() ==> rmap.contains_key((#[trigger] rem[q]).0),
        forall|q1: int, q2: int|
            0 <= q1 < q2 < rem.len() ==> rmap[(#[trigger] rem[q1]).0] != rmap[(
            #[trigger] rem[q2]).0],
        forall|q: int| 0 <= q < rem.len() ==> !tgt.contains_key(rmap[(#[trigger] rem[q]).0]),
        0 <= k < rem.len(),
        0 <= kp < rem.len(),
        rem[k].1.parent == Some(rem[kp].0),
    ensures
        ({
            let res = crate::merge::identity_merge_result::<
                Ref2<Ref>,
                Ref,
                T,
                Forest1<T>,
                Forest2<T, Ref>,
                Forest2Down1InProgressMerger<T>,
            >(rmap, tgt, rem);
            let p = rem[kp].0;
            &&& res.contains_key(rmap[rem[k].0])
            &&& res[rmap[rem[k].0]].item == rem[k].1.item
            &&& res[rmap[rem[k].0]].depth == rem[k].1.depth
            &&& res[rmap[rem[k].0]].parent == Some(rmap[p])
            &&& res.contains_key(rmap[p])
            &&& res[rmap[p]].item == rem[kp].1.item
        }),
{
    lemma_merge_completeness::<
        Ref2<Ref>,
        Ref,
        T,
        Forest1<T>,
        Forest2<T, Ref>,
        Forest2Down1InProgressMerger<T>,
    >(rmap, tgt, rem);
}

/// A lazy, restartable walk from a starting node towards its root: each
/// step resolves the current reference through the supplied accessor and
/// moves to the node's parent, ending after the first node whose parent no
/// longer resolves.
pub struct TowardsRootIter<R, A> {
    start: R,
    cursor: Option<R>,
    layer_access: A,
}

impl<R, A> TowardsRootIter<R, A> {
    pub closed spec fn spec_start(self) -> R {
        self.start
    }

    pub closed spec fn spec_cursor(self) -> Option<R> {
        self.cursor
    }

    pub closed spec fn spec_access(self) -> A {
        self.layer_access
    }

    /// Starts a walk at `node_ref`; the accessor must resolve every
    /// reference the walk can reach.
    pub fn new(layer_access: A, node_ref: R) -> (r: TowardsRootIter<R, A>) where R: Copy
        ensures
            r.spec_start() == node_ref,
            r.spec_cursor() == Some(node_ref),
            r.spec_access() == layer_access,
    {
        TowardsRootIter { start: node_ref, cursor: Some(node_ref), layer_access }
    }

    /// Resolves the current reference and steps to its parent.  Yields
    /// `None` once the walk has passed the first node with no resolvable
    /// parent (or if the start itself did not resolve).
    pub fn next<'a, T: 'a>(&mut self) -> (r: Option<Node<&'a T, R>>) where
        R: Copy,
        A: Fn(R) -> Option<Node<&'a T, R>>,

        requires
            old(self).spec_cursor() matches Some(c) ==> call_requires(
                old(self).spec_access(),
                (c,),
            ),
        ensures
            final(self).spec_access() == old(self).spec_access(),
            final(self).spec_start() == old(self).spec_start(),
            match old(self).spec_cursor() {
                None => r is None && final(self).spec_cursor() is None,
                Some(c) => exists|out: Option<Node<&'a T, R>>| #[trigger]
                    call_ensures(old(self).spec_access(), (c,), out) && r == out
                    && final(self).spec_cursor() == (match out {
                        Some(n) => n.parent,
                        None => None::<R>,
                    }),
            },
    {
        let node_ref = match self.cursor {
            Some(node_ref) => node_ref,
            None => {
                return None;
            },
        };
        self.cursor = None;
        let node = match (self.layer_access)(node_ref) {
            Some(node) => node,
            None => {
                return None;
            },
        };
        self.cursor = node.parent;
        Some(node)
    }

    /// The exact number of nodes the walk will still yield, in constant
    /// time: the cached depth of the starting node plus one, or zero if the
    /// start does not resolve.  Both bounds of the returned hint agree.
    pub fn size_hint<'a, T: 'a>(&self) -> (r: (usize, Option<usize>)) where
        R: Copy,
        A: Fn(R) -> Option<Node<&'a T, R>>,

        requires
            call_requires(self.spec_access(), (self.spec_start(),)),
            forall|out: Option<Node<&'a T, R>>|
                call_ensures(self.spec_access(), (self.spec_start(),), out) ==> (out matches Some(
                    n,
                ) ==> n.depth < usize::MAX),
        ensures
            exists|out: Option<Node<&'a T, R>>| #[trigger]
                call_ensures(self.spec_access(), (self.spec_start(),), out) && r == (match out {
                    Some(n) => ((n.depth + 1) as usize, Some((n.depth + 1) as usize)),
                    None => (0usize, None::<usize>),
                }),
    {
        match (self.layer_access)(self.start) {
            Some(node) => (node.depth + 1, Some(node.depth + 1)),
            None => (0, None),
        }
    }

    /// The exact number of nodes a fresh walk from the start would yield.
    pub fn count<'a, T: 'a>(self) -> (r: usize) where
        R: Copy,
        A: Fn(R) -> Option<Node<&'a T, R>>,

        requires
            call_requires(self.spec_access(), (self.spec_start(),)),
            forall|out: Option<Node<&'a T, R>>|
                call_ensures(self.spec_access(), (self.spec_start(),), out) ==> (out matches Some(
                    n,
                ) ==> n.depth < usize::MAX),
        ensures
            exists|out: Option<Node<&'a T, R>>| #[trigger]
                call_ensures(self.spec_access(), (self.spec_start(),), out) && r == (match out {
                    Some(n) => (n.depth + 1) as usize,
                    None => 0usize,
                }),
    {
        match (self.layer_access)(self.start) {
            Some(node) => node.depth + 1,
            None => 0,
        }
    }
}

} // verus!
