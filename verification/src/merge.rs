//! The structure-agnostic merge protocol: a two-phase, pull-driven state
//! machine that relocates every item of a source collection into a target
//! collection, giving the caller a hook to transform each item and a
//! reference-remap capability to rewrite every handle the items may embed.
//!
//! The first phase (reservation) runs inside the concrete `merge` methods;
//! these traits expose the second phase, which is driven step by step: each
//! `Continue` hands the caller one raw, untransformed item together with the
//! remaining state, and `proceed` stores the transformed item in the slot
//! reserved for it.

use vstd::prelude::*;

verus! {

/// One step of a merge drive: either one more source item awaiting its
/// transform, or the finished result together with the fully drained source
/// (returned so that its backing allocation stays reusable).
pub enum MergeState<SR, SI, K, FM, FE> {
    Continue { item_ref: SR, item: SI, next: K },
    Finish { merged: FM, empty: FE },
}

/// A merge that has reserved a target slot for every live source item and is
/// being driven item by item.  The spec functions model the drive: `rmap` is
/// the fixed reference-remap, `target_now` the target contents accumulated so
/// far, and `remaining` the source entries not yet yielded, in yield order.
pub trait InProgressMerger<SR, TR, SI, TI, FM, FE>: Sized {
    /// What a source slot holds, as the merge model sees it.
    type Src;

    /// What a target slot holds.
    type Stored;

    /// Internal consistency of this merge state.
    spec fn inv(&self) -> bool;

    /// Where each relocated source-space handle will live in target space.
    /// This map is fixed for the whole drive.
    spec fn rmap(&self) -> Map<SR, TR>;

    /// The target contents accumulated so far.
    spec fn target_now(&self) -> Map<TR, Self::Stored>;

    /// The source entries not yet yielded, in the order they will be
    /// yielded.
    spec fn remaining(&self) -> Seq<(SR, Self::Src)>;

    /// The source entry that was yielded together with this state.
    spec fn cur_src(&self) -> Self::Src;

    /// The target-space handle reserved for the entry yielded with this
    /// state.
    spec fn pending(&self) -> TR;

    /// The caller-visible item carried by a source entry.
    spec fn item_of(s: Self::Src) -> SI;

    /// How the caller's transformed item is stored in the target, given the
    /// source entry it came from: every handle the entry embeds is rewritten
    /// through `rmap`.
    spec fn restore(rmap: Map<SR, TR>, s: Self::Src, ti: TI) -> Self::Stored;

    /// The model of a finished merge result.
    spec fn merged_items(fm: &FM) -> Map<TR, Self::Stored>;

    /// Whether a finished merge result is well-formed.
    spec fn merged_ok(fm: &FM) -> bool;

    /// Whether the drained source is well-formed and empty.
    spec fn empty_ok(fe: &FE) -> bool;

    /// Maps a source-space handle to the target-space handle its item will
    /// occupy, or `None` for a handle that names no relocated item (stale,
    /// foreign, or never live at the start of the merge).
    fn ref_transform(&self, source_ref: SR) -> (r: Option<TR>)
        requires
            self.inv(),
        ensures
            r == if self.rmap().contains_key(source_ref) {
                Some(self.rmap().index(source_ref))
            } else {
                None::<TR>
            },
    ;

    /// Stores the caller's transformed item, with its embedded references
    /// rewritten through the remap, into the slot reserved for the current
    /// source entry, and advances to the next entry (or finishes).
    fn proceed(self, transformed_item: TI) -> (st: MergeState<SR, SI, Self, FM, FE>)
        requires
            self.inv(),
        ensures
            ({
                let rmap = self.rmap();
                let tgt = self.target_now().insert(
                    self.pending(),
                    Self::restore(self.rmap(), self.cur_src(), transformed_item),
                );
                let rem = self.remaining();
                match st {
                    MergeState::Continue { item_ref, item, next } => {
                        &&& rem.len() > 0
                        &&& item_ref == rem[0].0
                        &&& item == Self::item_of(rem[0].1)
                        &&& next.inv()
                        &&& next.rmap() == rmap
                        &&& next.target_now() == tgt
                        &&& next.remaining() == rem.drop_first()
                        &&& next.cur_src() == rem[0].1
                        &&& rmap.contains_key(item_ref)
                        &&& next.pending() == rmap[item_ref]
                        &&& !tgt.contains_key(rmap[item_ref])
                    },
                    MergeState::Finish { merged, empty } => {
                        &&& rem.len() == 0
                        &&& Self::merged_items(&merged) == tgt
                        &&& Self::merged_ok(&merged)
                        &&& Self::empty_ok(&empty)
                    },
                }
            }),
    ;
}

/// A merge whose reservation phase is complete but whose drive has not
/// started.  `merge_start` yields the first step.
pub trait InitMerger<SR, TR, SI, TI, K, FM, FE>: Sized where
    K: InProgressMerger<SR, TR, SI, TI, FM, FE>,
 {
    /// Internal consistency.
    spec fn inv(&self) -> bool;

    /// Where each relocated source-space handle will live in target space.
    spec fn rmap(&self) -> Map<SR, TR>;

    /// The target contents at the start of the drive.
    spec fn target_now(&self) -> Map<TR, K::Stored>;

    /// All source entries, in the order the drive will yield them.
    spec fn remaining(&self) -> Seq<(SR, K::Src)>;

    /// Maps a source-space handle to the target-space handle its item will
    /// occupy, or `None` for a handle that names no relocated item.
    fn ref_transform(&self, source_ref: SR) -> (r: Option<TR>)
        requires
            self.inv(),
        ensures
            r == if self.rmap().contains_key(source_ref) {
                Some(self.rmap().index(source_ref))
            } else {
                None::<TR>
            },
    ;

    /// Begins the drive.
    fn merge_start(self) -> (st: MergeState<SR, SI, K, FM, FE>)
        requires
            self.inv(),
        ensures
            merge_state_inv::<SR, TR, SI, TI, FM, FE, K>(
                st,
                self.rmap(),
                self.target_now(),
                self.remaining(),
            ),
    ;
}

/// The invariant tying one step of a merge drive to its model: `rmap` never
/// changes, `tgt` is the target contents accumulated before this step, and
/// `rem` the entries still to be yielded (the `Continue` case yields exactly
/// `rem[0]`).  On `Finish`, the merged result holds exactly `tgt` and the
/// returned source is empty.
pub open spec fn merge_state_inv<SR, TR, SI, TI, FM, FE, K: InProgressMerger<SR, TR, SI, TI, FM, FE>>(
    st: MergeState<SR, SI, K, FM, FE>,
    rmap: Map<SR, TR>,
    tgt: Map<TR, K::Stored>,
    rem: Seq<(SR, K::Src)>,
) -> bool {
    match st {
        MergeState::Continue { item_ref, item, next } => {
            &&& rem.len() > 0
            &&& item_ref == rem[0].0
            &&& item == K::item_of(rem[0].1)
            &&& next.inv()
            &&& next.rmap() == rmap
            &&& next.target_now() == tgt
            &&& next.remaining() == rem.drop_first()
            &&& next.cur_src() == rem[0].1
            &&& rmap.contains_key(item_ref)
            &&& next.pending() == rmap[item_ref]
            &&& !tgt.contains_key(rmap[item_ref])
        },
        MergeState::Finish { merged, empty } => {
            &&& rem.len() == 0
            &&& K::merged_items(&merged) == tgt
            &&& K::merged_ok(&merged)
            &&& K::empty_ok(&empty)
        },
    }
}

/// The target contents after draining `rem` with the identity transform:
/// each entry's item is stored, references rewritten, at the handle the
/// remap assigns to it.
pub open spec fn identity_merge_result<SR, TR, SI, FM, FE, K: InProgressMerger<SR, TR, SI, SI, FM, FE>>(
    rmap: Map<SR, TR>,
    tgt: Map<TR, K::Stored>,
    rem: Seq<(SR, K::Src)>,
) -> Map<TR, K::Stored>
    decreases rem.len(),
{
    if rem.len() <= 0 {
        tgt
    } else {
        identity_merge_result::<SR, TR, SI, FM, FE, K>(
            rmap,
            tgt.insert(rmap[rem[0].0], K::restore(rmap, rem[0].1, K::item_of(rem[0].1))),
            rem.drop_first(),
        )
    }
}

/// The source entries of a drive, seen as a map from handle to item.
pub open spec fn entries_map<SR, S>(rem: Seq<(SR, S)>) -> Map<SR, S>
    decreases rem.len(),
{
    if rem.len() <= 0 {
        Map::empty()
    } else {
        entries_map(rem.drop_first()).insert(rem[0].0, rem[0].1)
    }
}

/// Whether no handle occurs twice among the source entries.
pub open spec fn entries_distinct<SR, S>(rem: Seq<(SR, S)>) -> bool {
    forall|k1: int, k2: int|
        0 <= k1 < k2 < rem.len() ==> (#[trigger] rem[k1]).0 != (#[trigger] rem[k2]).0
}

/// Every handle among the entries is a key of the entry map, and maps to its
/// item.
pub proof fn lemma_entries_map_index<SR, S>(rem: Seq<(SR, S)>, k: int)
    requires
        entries_distinct(rem),
        0 <= k < rem.len(),
    ensures
        entries_map(rem).contains_key(rem[k].0),
        entries_map(rem)[rem[k].0] == rem[k].1,
    decreases rem.len(),
{
    if k > 0 {
        assert(rem.drop_first()[k - 1] == rem[k]);
        lemma_entries_map_index(rem.drop_first(), k - 1);
        assert(rem[0].0 != rem[k].0);
    }
}

/// The keys of the entry map are exactly the handles among the entries.
pub proof fn lemma_entries_map_dom<SR, S>(rem: Seq<(SR, S)>, r: SR)
    ensures
        entries_map(rem).contains_key(r) <==> exists|k: int|
            0 <= k < rem.len() && (#[trigger] rem[k]).0 == r,
    decreases rem.len(),
{
    if rem.len() > 0 {
        lemma_entries_map_dom(rem.drop_first(), r);
        if rem[0].0 == r {
            assert(0 <= 0 < rem.len() && (#[trigger] rem[0]).0 == r);
        } else {
            if entries_map(rem).contains_key(r) {
                let k = choose|k: int|
                    0 <= k < rem.drop_first().len() && (#[trigger] rem.drop_first()[k]).0 == r;
                assert(rem.drop_first()[k] == rem[k + 1]);
                assert(0 <= k + 1 < rem.len() && (#[trigger] rem[k + 1]).0 == r);
            }
            if exists|k: int| 0 <= k < rem.len() && (#[trigger] rem[k]).0 == r {
                let k = choose|k: int| 0 <= k < rem.len() && (#[trigger] rem[k]).0 == r;
                assert(k >= 1);
                assert(rem.drop_first()[k - 1] == rem[k]);
                assert(0 <= k - 1 < rem.drop_first().len() && (#[trigger] rem.drop_first()[k
                    - 1]).0 == r);
            }
        }
    }
}

/// Merge completeness: after a full identity drive, the result holds the
/// original target contents unchanged, plus every source entry, each stored
/// (with its references rewritten) at exactly the handle the remap assigns
/// to it, and nothing else.
pub proof fn lemma_merge_completeness<SR, TR, SI, FM, FE, K: InProgressMerger<SR, TR, SI, SI, FM, FE>>(
    rmap: Map<SR, TR>,
    tgt: Map<TR, K::Stored>,
    rem: Seq<(SR, K::Src)>,
)
    requires
        entries_distinct(rem),
        forall|k: int| 0 <= k < rem.len() ==> rmap.contains_key((#[trigger] rem[k]).0),
        forall|k1: int, k2: int|
            0 <= k1 < k2 < rem.len() ==> rmap[(#[trigger] rem[k1]).0] != rmap[(
            #[trigger] rem[k2]).0],
        forall|k: int| 0 <= k < rem.len() ==> !tgt.contains_key(rmap[(#[trigger] rem[k]).0]),
    ensures
        ({
            let res = identity_merge_result::<SR, TR, SI, FM, FE, K>(rmap, tgt, rem);
            &&& forall|k: int|
                0 <= k < rem.len() ==> res.contains_key(rmap[(#[trigger] rem[k]).0])
                    && res[rmap[rem[k].0]] == K::restore(rmap, rem[k].1, K::item_of(rem[k].1))
            &&& forall|tr: TR| #[trigger]
                tgt.contains_key(tr) ==> res.contains_key(tr) && res[tr] == tgt[tr]
            &&& forall|tr: TR| #[trigger]
                res.contains_key(tr) ==> tgt.contains_key(tr) || exists|k: int|
                    0 <= k < rem.len() && tr == rmap[(#[trigger] rem[k]).0]
        }),
    decreases rem.len(),
{
    if rem.len() > 0 {
        let tr0 = rmap[rem[0].0];
        let tgt1 = tgt.insert(tr0, K::restore(rmap, rem[0].1, K::item_of(rem[0].1)));
        assert forall|k: int| 0 <= k < rem.drop_first().len() implies !tgt1.contains_key(
            rmap[(#[trigger] rem.drop_first()[k]).0],
        ) by {
            assert(rem.drop_first()[k] == rem[k + 1]);
            assert(rmap[rem[0].0] != rmap[rem[k + 1].0]);
        }
        assert forall|k1: int, k2: int| 0 <= k1 < k2 < rem.drop_first().len() implies rmap[(
        #[trigger] rem.drop_first()[k1]).0] != rmap[(#[trigger] rem.drop_first()[k2]).0] by {
            assert(rem.drop_first()[k1] == rem[k1 + 1]);
            assert(rem.drop_first()[k2] == rem[k2 + 1]);
        }
        lemma_merge_completeness::<SR, TR, SI, FM, FE, K>(rmap, tgt1, rem.drop_first());
        let res = identity_merge_result::<SR, TR, SI, FM, FE, K>(rmap, tgt, rem);
        assert(res == identity_merge_result::<SR, TR, SI, FM, FE, K>(
            rmap,
            tgt1,
            rem.drop_first(),
        ));
        assert forall|k: int| 0 <= k < rem.len() implies res.contains_key(
            rmap[(#[trigger] rem[k]).0],
        ) && res[rmap[rem[k].0]] == K::restore(rmap, rem[k].1, K::item_of(rem[k].1)) by {
            if k == 0 {
                assert(tgt1.contains_key(tr0));
            } else {
                assert(rem.drop_first()[k - 1] == rem[k]);
            }
        }
        assert forall|tr: TR| #[trigger] tgt.contains_key(tr) implies res.contains_key(tr)
            && res[tr] == tgt[tr] by {
            assert(!tgt.contains_key(rmap[rem[0].0]));
            assert(tr != tr0);
            assert(tgt1.contains_key(tr) && tgt1[tr] == tgt[tr]);
        }
        assert forall|tr: TR| #[trigger] res.contains_key(tr) implies tgt.contains_key(tr)
            || exists|k: int| 0 <= k < rem.len() && tr == rmap[(#[trigger] rem[k]).0] by {
            if !tgt.contains_key(tr) {
                if tr == tr0 {
                    assert(0 <= 0 < rem.len() && tr == rmap[(#[trigger] rem[0]).0]);
                } else {
                    assert(!tgt1.contains_key(tr));
                    let k = choose|k: int|
                        0 <= k < rem.drop_first().len() && tr == rmap[(#[trigger] rem.drop_first()[k]).0];
                    assert(rem.drop_first()[k] == rem[k + 1]);
                    assert(0 <= k + 1 < rem.len() && tr == rmap[(#[trigger] rem[k + 1]).0]);
                }
            }
        }
    }
}

/// Drives a merge to completion with the identity (no-op) transform, for the
/// common case where item types are unchanged across the merge.  The result
/// holds the original target contents plus every source item, relocated to
/// the handle the remap assigns to it, with its references rewritten.
#[verifier::loop_isolation(false)]
pub fn merge_no_transform<SR, TR, I, K, FM, FE, IM>(merge_init: IM) -> (r: FM) where
    IM: InitMerger<SR, TR, I, I, K, FM, FE>,
    K: InProgressMerger<SR, TR, I, I, FM, FE>,

    requires
        merge_init.inv(),
    ensures
        K::merged_items(&r) == identity_merge_result::<SR, TR, I, FM, FE, K>(
            merge_init.rmap(),
            merge_init.target_now(),
            merge_init.remaining(),
        ),
        K::merged_ok(&r),
{
    let ghost rmap0 = merge_init.rmap();
    let ghost goal = identity_merge_result::<SR, TR, I, FM, FE, K>(
        rmap0,
        merge_init.target_now(),
        merge_init.remaining(),
    );
    let ghost mut tgt_g = merge_init.target_now();
    let ghost mut rem_g = merge_init.remaining();
    let mut merge_step = merge_init.merge_start();
    loop
        invariant
            merge_state_inv::<SR, TR, I, I, FM, FE, K>(merge_step, rmap0, tgt_g, rem_g),
            identity_merge_result::<SR, TR, I, FM, FE, K>(rmap0, tgt_g, rem_g) == goal,
        decreases rem_g.len(),
    {
        match merge_step {
            MergeState::Finish { merged, empty: _ } => {
                proof {
                    assert(identity_merge_result::<SR, TR, I, FM, FE, K>(rmap0, tgt_g, rem_g)
                        == tgt_g);
                }
                return merged;
            },
            MergeState::Continue { item_ref: _, item, next } => {
                proof {
                    tgt_g = tgt_g.insert(
                        rmap0[rem_g[0].0],
                        K::restore(rmap0, rem_g[0].1, K::item_of(rem_g[0].1)),
                    );
                    rem_g = rem_g.drop_first();
                }
                merge_step = next.proceed(item);
            },
        }
    }
}

} // verus!
