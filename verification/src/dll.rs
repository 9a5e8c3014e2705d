//! A doubly linked list whose links live in a generational arena: an
//! ordinary consumer of the arena.  Every element is addressable by a
//! stable, validated handle, so middle elements can be unlinked in constant
//! time.

use vstd::prelude::*;

use crate::arena::{Arena, Ref};

verus! {

/// One element of the list: the payload and the neighbour handles.
pub struct Link<T> {
    pub item: T,
    prev: Option<Ref>,
    next: Option<Ref>,
}

/// The list: an arena of links plus the handle of the first element.  The
/// element order is carried alongside as a ghost sequence of handles that
/// the link structure must follow.
pub struct List<T> {
    set: Arena<Link<T>>,
    head: Option<Ref>,
    order: Ghost<Seq<Ref>>,
}

impl<T> List<T> {
    /// The handles of the elements, first to last.
    pub closed spec fn order(self) -> Seq<Ref> {
        self.order@
    }

    /// The payload behind a handle.
    pub closed spec fn item_of(self, r: Ref) -> T {
        self.set.items()[r].item
    }

    /// Whether `r` currently names an element of this list.
    pub closed spec fn has(self, r: Ref) -> bool {
        self.set.items().contains_key(r)
    }

    /// The payloads of the elements, first to last.
    pub open spec fn items_seq(self) -> Seq<T> {
        Seq::new(self.order().len(), |i: int| self.item_of(self.order()[i]))
    }

    pub closed spec fn can_insert(self) -> bool {
        self.set.can_insert()
    }

    /// The link structure follows the element order: neighbour handles
    /// chain the elements together, the head is the first element, and
    /// every arena slot belongs to the chain.
    pub closed spec fn wf(self) -> bool {
        let ord = self.order@;
        let m = self.set.items();
        &&& self.set.wf()
        &&& ord.len() == self.set.spec_len()
        &&& forall|i: int| 0 <= i < ord.len() ==> m.contains_key(#[trigger] ord[i])
        &&& forall|i: int, j: int| 0 <= i < j < ord.len() ==> ord[i] != ord[j]
        &&& self.head == (if ord.len() > 0 {
            Some(ord[0])
        } else {
            None::<Ref>
        })
        &&& forall|i: int|
            0 <= i < ord.len() ==> m[#[trigger] ord[i]].prev == (if i > 0 {
                Some(ord[i - 1])
            } else {
                None::<Ref>
            })
        &&& forall|i: int|
            0 <= i < ord.len() ==> m[#[trigger] ord[i]].next == (if i + 1 < ord.len() {
                Some(ord[i + 1])
            } else {
                None::<Ref>
            })
        &&& forall|r: Ref| #[trigger]
            m.contains_key(r) ==> exists|i: int| 0 <= i < ord.len() && ord[i] == r
    }

    /// Creates an empty list owning the arena identity `uid`.
    pub fn new(uid: u64) -> (r: List<T>)
        ensures
            r.wf(),
            r.can_insert(),
            r.order() == Seq::<Ref>::empty(),
    {
        List { set: Arena::new(uid), head: None, order: Ghost(Seq::empty()) }
    }

    /// Creates an empty list with at least `capacity` slots preallocated.
    pub fn with_capacity(uid: u64, capacity: usize) -> (r: List<T>)
        ensures
            r.wf(),
            r.can_insert(),
            r.order() == Seq::<Ref>::empty(),
    {
        List { set: Arena::with_capacity(uid, capacity), head: None, order: Ghost(Seq::empty()) }
    }

    /// The exact number of elements.
    pub fn len(&self) -> (r: usize)
        requires
            self.wf(),
        ensures
            r == self.order().len(),
    {
        self.set.len()
    }

    pub fn is_empty(&self) -> (r: bool)
        requires
            self.wf(),
        ensures
            r == (self.order().len() == 0),
    {
        self.len() == 0
    }

    /// Adds an element at the front and returns its handle, which aliases
    /// no handle this list ever issued before.
    pub fn prepend(&mut self, item: T) -> (r: Ref)
        requires
            old(self).wf(),
            old(self).can_insert(),
        ensures
            final(self).wf(),
            !old(self).has(r),
            final(self).order() == seq![r] + old(self).order(),
            final(self).has(r),
            final(self).item_of(r) == item,
            forall|r2: Ref| #[trigger]
                old(self).has(r2) ==> final(self).has(r2) && final(self).item_of(r2)
                    == old(self).item_of(r2),
    {
        let ghost o = *self;
        let r = match self.head {
            Some(prev_head_ref) => {
                let item_ref = self.set.insert(
                    Link { item, prev: None, next: Some(prev_head_ref) },
                );
                match self.set.get_mut(prev_head_ref) {
                    Some(prev_head) => {
                        prev_head.prev = Some(item_ref);
                    },
                    None => {
                        proof {
                            assert(o.set.items().contains_key(prev_head_ref));
                        }
                        vstd::pervasive::unreached()
                    },
                }
                self.head = Some(item_ref);
                item_ref
            },
            None => {
                let item_ref = self.set.insert(Link { item, prev: None, next: None });
                self.head = Some(item_ref);
                item_ref
            },
        };
        self.order = Ghost(seq![r] + o.order@);
        proof {
            let ord = self.order@;
            let m = self.set.items();
            assert forall|i: int| 0 <= i < ord.len() implies m.contains_key(#[trigger] ord[i])
                && m[ord[i]].prev == (if i > 0 {
                Some(ord[i - 1])
            } else {
                None::<Ref>
            }) && m[ord[i]].next == (if i + 1 < ord.len() {
                Some(ord[i + 1])
            } else {
                None::<Ref>
            }) by {
                if i > 0 {
                    assert(ord[i] == o.order@[i - 1]);
                    assert(o.set.items().contains_key(ord[i]));
                    if i > 1 {
                        assert(ord[i - 1] == o.order@[i - 2]);
                    }
                    if i + 1 < ord.len() {
                        assert(ord[i + 1] == o.order@[i]);
                    }
                }
            }
            assert forall|r2: Ref| #[trigger] m.contains_key(r2) implies exists|i: int|
                0 <= i < ord.len() && ord[i] == r2 by {
                if r2 == r {
                    assert(ord[0] == r2);
                } else {
                    assert(o.set.items().contains_key(r2));
                    let i = choose|i: int| 0 <= i < o.order@.len() && o.order@[i] == r2;
                    assert(ord[i + 1] == r2);
                }
            }
            assert forall|i: int, j: int| 0 <= i < j < ord.len() implies ord[i] != ord[j] by {
                if i > 0 {
                    assert(ord[i] == o.order@[i - 1] && ord[j] == o.order@[j - 1]);
                } else {
                    assert(ord[j] == o.order@[j - 1]);
                    assert(o.set.items().contains_key(ord[j]));
                }
            }
            assert(final(self).wf());
        }
        r
    }

    /// Unlinks the element named by `link_ref` and returns its payload, iff
    /// the handle is valid for this list; otherwise returns `None` with no
    /// effect.
    pub fn remove(&mut self, link_ref: Ref) -> (r: Option<T>)
        requires
            old(self).wf(),
        ensures
            final(self).wf(),
            r is Some ==> old(self).has(link_ref) && r.unwrap() == old(self).item_of(link_ref)
                && (exists|k: int|
                0 <= k < old(self).order().len() && old(self).order()[k] == link_ref
                    && final(self).order() == old(self).order().remove(k)),
            r is None ==> !old(self).has(link_ref) && final(self).order() == old(self).order(),
            forall|r2: Ref| #[trigger]
                final(self).has(r2) ==> old(self).has(r2) && final(self).item_of(r2)
                    == old(self).item_of(r2),
    {
        let ghost o = *self;
        match self.set.remove(link_ref) {
            Some(link) => {
                let ghost k = choose|k: int|
                    0 <= k < o.order@.len() && o.order@[k] == link_ref;
                let Link { item, prev, next } = link;
                match self.head {
                    Some(head_ref) => {
                        if head_ref == link_ref {
                            self.head = next;
                        }
                    },
                    None => {},
                }
                match prev {
                    Some(prev_ref) => {
                        proof {
                            assert(o.order@[k - 1] == prev_ref);
                            assert(self.set.items().contains_key(prev_ref));
                        }
                        match self.set.get_mut(prev_ref) {
                            Some(prev_link) => {
                                prev_link.next = next;
                            },
                            None => vstd::pervasive::unreached(),
                        }
                    },
                    None => {},
                }
                match next {
                    Some(next_ref) => {
                        proof {
                            assert(o.order@[k + 1] == next_ref);
                            assert(self.set.items().contains_key(next_ref));
                        }
                        match self.set.get_mut(next_ref) {
                            Some(next_link) => {
                                next_link.prev = prev;
                            },
                            None => vstd::pervasive::unreached(),
                        }
                    },
                    None => {},
                }
                self.order = Ghost(o.order@.remove(k));
                proof {
                    lemma_list_remove_wf(o, *self, link_ref, k);
                    assert(0 <= k < old(self).order().len() && old(self).order()[k] == link_ref
                        && self.order@ == old(self).order().remove(k));
                    assert(exists|k2: int|
                        0 <= k2 < old(self).order().len() && old(self).order()[k2] == link_ref
                            && self.order@ == old(self).order().remove(k2));
                }
                Some(item)
            },
            None => None,
        }
    }

    /// Removes and returns the first element, if any.
    pub fn pop_front(&mut self) -> (r: Option<T>)
        requires
            old(self).wf(),
        ensures
            final(self).wf(),
            old(self).order().len() > 0 ==> r == Some(old(self).items_seq()[0])
                && final(self).order() == old(self).order().drop_first(),
            old(self).order().len() == 0 ==> r is None && final(self).order()
                == old(self).order(),
            forall|r2: Ref| #[trigger]
                final(self).has(r2) ==> old(self).has(r2) && final(self).item_of(r2)
                    == old(self).item_of(r2),
    {
        let head = self.head;
        match head {
            Some(head_ref) => {
                let ghost o = *self;
                let r = self.remove(head_ref);
                proof {
                    let k = choose|k: int|
                        0 <= k < o.order@.len() && o.order@[k] == head_ref && self.order@
                            == o.order@.remove(k);
                    assert(o.order@[0] == head_ref);
                    assert(k == 0);
                    assert(o.order@.remove(0) =~= o.order@.drop_first());
                }
                r
            },
            None => None,
        }
    }
}

impl<T> List<T> {
    /// Starts a lazy walk over the elements, front to back.
    pub fn iter<'a>(&'a self) -> (r: ListIter<'a, T>)
        requires
            self.wf(),
        ensures
            r.inv(),
            r.spec_order() == self.order(),
            r.spec_pos() == 0,
            forall|i: int|
                0 <= i < self.order().len() ==> r.item_at(i) == self.item_of(
                    #[trigger] self.order()[i],
                ),
    {
        ListIter { set: &self.set, cur: self.head, order: Ghost(self.order@), pos: Ghost(0) }
    }
}

/// A lazy, restartable walk over a list's elements, front to back, following
/// the `next` handles.
pub struct ListIter<'a, T> {
    set: &'a Arena<Link<T>>,
    cur: Option<Ref>,
    order: Ghost<Seq<Ref>>,
    pos: Ghost<int>,
}

impl<'a, T> ListIter<'a, T> {
    /// The handles of the walked chain, first to last.
    pub closed spec fn spec_order(self) -> Seq<Ref> {
        self.order@
    }

    /// How many elements have been yielded.
    pub closed spec fn spec_pos(self) -> int {
        self.pos@
    }

    /// The payload at position `i` of the chain.
    pub closed spec fn item_at(self, i: int) -> T {
        self.set.items()[self.order@[i]].item
    }

    /// The iterator stands at a position of a chain the arena still holds.
    pub closed spec fn inv(self) -> bool {
        &&& 0 <= self.pos@ <= self.order@.len()
        &&& self.cur == (if self.pos@ < self.order@.len() {
            Some(self.order@[self.pos@])
        } else {
            None::<Ref>
        })
        &&& forall|i: int|
            0 <= i < self.order@.len() ==> self.set.items().contains_key(#[trigger] self.order@[i])
        &&& forall|i: int|
            0 <= i < self.order@.len() ==> self.set.items()[#[trigger] self.order@[i]].next == (
            if i + 1 < self.order@.len() {
                Some(self.order@[i + 1])
            } else {
                None::<Ref>
            })
    }

    /// Yields the next element's payload: exactly the items of the list the
    /// walk was started on, in list order.
    pub fn next(&mut self) -> (r: Option<&'a T>)
        requires
            old(self).inv(),
        ensures
            final(self).inv(),
            final(self).spec_order() == old(self).spec_order(),
            forall|i: int|
                0 <= i < old(self).spec_order().len() ==> final(self).item_at(i)
                    == old(self).item_at(i),
            old(self).spec_pos() < old(self).spec_order().len() ==> r is Some && *r.unwrap()
                == old(self).item_at(old(self).spec_pos())
                && final(self).spec_pos() == old(self).spec_pos() + 1,
            old(self).spec_pos() >= old(self).spec_order().len() ==> r is None
                && final(self).spec_pos() == old(self).spec_pos(),
    {
        let cur = match self.cur {
            Some(c) => c,
            None => {
                return None;
            },
        };
        let link = match self.set.get(cur) {
            Some(l) => l,
            None => vstd::pervasive::unreached(),
        };
        self.cur = link.next;
        let ghost p = self.pos@;
        self.pos = Ghost(p + 1);
        Some(&link.item)
    }
}

/// Unlinking one element re-establishes the list invariant with that
/// element's position removed from the order.
#[verifier::rlimit(100)]
proof fn lemma_list_remove_wf<T>(o: List<T>, f: List<T>, link_ref: Ref, k: int)
    requires
        o.wf(),
        0 <= k < o.order@.len(),
        o.order@[k] == link_ref,
        f.order@ == o.order@.remove(k),
        f.set.wf(),
        f.set.spec_len() == o.set.spec_len() - 1,
        // the arena after the removal and the two neighbour patches
        f.set.items() == ({
            let m0 = o.set.items().remove(link_ref);
            let m1 = if k > 0 {
                m0.insert(
                    o.order@[k - 1],
                    Link {
                        item: m0[o.order@[k - 1]].item,
                        prev: m0[o.order@[k - 1]].prev,
                        next: o.set.items()[link_ref].next,
                    },
                )
            } else {
                m0
            };
            if k + 1 < o.order@.len() {
                m1.insert(
                    o.order@[k + 1],
                    Link {
                        item: m1[o.order@[k + 1]].item,
                        prev: o.set.items()[link_ref].prev,
                        next: m1[o.order@[k + 1]].next,
                    },
                )
            } else {
                m1
            }
        }),
        f.head == (if k == 0 {
            o.set.items()[link_ref].next
        } else {
            o.head
        }),
    ensures
        f.wf(),
{
    let ord0 = o.order@;
    let ord = f.order@;
    let m = f.set.items();
    assert(o.set.items()[link_ref].prev == (if k > 0 {
        Some(ord0[k - 1])
    } else {
        None::<Ref>
    }));
    assert(o.set.items()[link_ref].next == (if k + 1 < ord0.len() {
        Some(ord0[k + 1])
    } else {
        None::<Ref>
    }));
    assert forall|i: int| 0 <= i < ord.len() implies ord[i] == (if i < k {
        ord0[i]
    } else {
        ord0[i + 1]
    }) by {}
    assert forall|i: int| 0 <= i < ord.len() implies m.contains_key(#[trigger] ord[i]) && m[ord[i]].prev
        == (if i > 0 {
        Some(ord[i - 1])
    } else {
        None::<Ref>
    }) && m[ord[i]].next == (if i + 1 < ord.len() {
        Some(ord[i + 1])
    } else {
        None::<Ref>
    }) by {
        let r0 = if i < k {
            ord0[i]
        } else {
            ord0[i + 1]
        };
        assert(ord[i] == r0);
        assert(r0 != link_ref);
    }
    assert forall|r2: Ref| #[trigger] m.contains_key(r2) implies exists|i: int|
        0 <= i < ord.len() && ord[i] == r2 by {
        assert(o.set.items().contains_key(r2));
        let i0 = choose|i0: int| 0 <= i0 < ord0.len() && ord0[i0] == r2;
        if i0 < k {
            assert(ord[i0] == r2);
        } else {
            assert(i0 > k);
            assert(ord[i0 - 1] == r2);
        }
    }
    if ord.len() > 0 {
        assert(f.head == Some(ord[0]));
    }
    assert(f.wf());
}

} // verus!
