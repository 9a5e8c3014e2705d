//! An in-place merge of two vectors, driven by a caller-supplied
//! comparator: drains the second vector into the first, preserving the
//! relative order of each input, so that two sorted inputs merge into one
//! sorted output.

use vstd::prelude::*;

verus! {

/// Whether `r` interleaves `a` and `b`: it contains exactly the elements of
/// both, each input's elements in their original relative order.
pub open spec fn is_interleaving<T>(a: Seq<T>, b: Seq<T>, r: Seq<T>) -> bool
    decreases r.len(),
{
    if r.len() == 0 {
        a.len() == 0 && b.len() == 0
    } else {
        ||| (a.len() > 0 && r.last() == a.last() && is_interleaving(
            a.drop_last(),
            b,
            r.drop_last(),
        ))
        ||| (b.len() > 0 && r.last() == b.last() && is_interleaving(
            a,
            b.drop_last(),
            r.drop_last(),
        ))
    }
}

/// A sequence interleaves itself with the empty sequence.
proof fn lemma_interleaving_right_empty<T>(a: Seq<T>)
    ensures
        is_interleaving(a, Seq::<T>::empty(), a),
    decreases a.len(),
{
    if a.len() > 0 {
        lemma_interleaving_right_empty(a.drop_last());
    }
}

/// The empty sequence on the left, symmetrically.
proof fn lemma_interleaving_left_empty<T>(b: Seq<T>)
    ensures
        is_interleaving(Seq::<T>::empty(), b, b),
    decreases b.len(),
{
    if b.len() > 0 {
        lemma_interleaving_left_empty(b.drop_last());
    }
}

/// Merges the contents of `vec` into `vec_dst`, draining `vec`: walking
/// both vectors from the back, the element the comparator ranks higher goes
/// last, as an in-place merge step of a merge sort would.  The result
/// interleaves the two inputs — each input's relative order survives — so
/// two inputs sorted by the comparator's order leave `vec_dst` sorted.
#[verifier::loop_isolation(false)]
pub fn drain_merge_sorted<T, F: Fn(&T, &T) -> bool>(
    vec_dst: &mut Vec<T>,
    vec: &mut Vec<T>,
    less_p: F,
)
    requires
        forall|x: &T, y: &T| #[trigger] call_requires(less_p, (x, y)),
    ensures
        final(vec)@ == Seq::<T>::empty(),
        is_interleaving(old(vec_dst)@, old(vec)@, final(vec_dst)@),
{
    let ghost a0 = vec_dst@;
    let ghost b0 = vec@;
    if vec.is_empty() {
        proof {
            assert(vec@ =~= Seq::<T>::empty());
            lemma_interleaving_right_empty(a0);
        }
        return ;
    }
    if vec_dst.is_empty() {
        core::mem::swap(vec_dst, vec);
        proof {
            assert(vec@ =~= Seq::<T>::empty());
            assert(a0 =~= Seq::<T>::empty());
            lemma_interleaving_left_empty(b0);
        }
        return ;
    }
    let mut merged_rev: Vec<T> = Vec::new();
    while vec_dst.len() > 0 && vec.len() > 0
        invariant
            forall|w: Seq<T>|
                #[trigger] is_interleaving(vec_dst@, vec@, w) ==> is_interleaving(
                    a0,
                    b0,
                    w + merged_rev@.reverse(),
                ),
        decreases vec_dst@.len() + vec@.len(),
    {
        let ghost dst1 = vec_dst@;
        let ghost src1 = vec@;
        let ghost m1 = merged_rev@;
        let take_src = less_p(&vec_dst[vec_dst.len() - 1], &vec[vec.len() - 1]);
        let moved = if take_src {
            match vec.pop() {
                Some(x) => x,
                None => vstd::pervasive::unreached(),
            }
        } else {
            match vec_dst.pop() {
                Some(x) => x,
                None => vstd::pervasive::unreached(),
            }
        };
        let ghost d = moved;
        merged_rev.push(moved);
        proof {
            assert(merged_rev@ == m1.push(d));
            assert forall|w: Seq<T>| #[trigger] is_interleaving(vec_dst@, vec@, w) implies
                is_interleaving(a0, b0, w + merged_rev@.reverse()) by {
                let wd = w.push(d);
                if take_src {
                    assert(src1 == vec@.push(d));
                    assert(vec@ == src1.drop_last());
                    assert(wd.drop_last() =~= w);
                    assert(is_interleaving(dst1, src1, wd));
                } else {
                    assert(dst1 == vec_dst@.push(d));
                    assert(vec_dst@ == dst1.drop_last());
                    assert(wd.drop_last() =~= w);
                    assert(is_interleaving(dst1, src1, wd));
                }
                assert(is_interleaving(a0, b0, wd + m1.reverse()));
                assert(wd + m1.reverse() =~= w + merged_rev@.reverse());
            }
        }
    }
    // One side is drained; move what is left of `vec` across as well.
    while vec.len() > 0
        invariant
            vec_dst@.len() == 0 || vec@.len() == 0,
            forall|w: Seq<T>|
                #[trigger] is_interleaving(vec_dst@, vec@, w) ==> is_interleaving(
                    a0,
                    b0,
                    w + merged_rev@.reverse(),
                ),
        decreases vec@.len(),
    {
        let ghost src1 = vec@;
        let ghost m1 = merged_rev@;
        let moved = match vec.pop() {
            Some(x) => x,
            None => vstd::pervasive::unreached(),
        };
        let ghost d = moved;
        merged_rev.push(moved);
        proof {
            assert forall|w: Seq<T>| #[trigger] is_interleaving(vec_dst@, vec@, w) implies
                is_interleaving(a0, b0, w + merged_rev@.reverse()) by {
                let wd = w.push(d);
                assert(src1 == vec@.push(d));
                assert(vec@ == src1.drop_last());
                assert(wd.drop_last() =~= w);
                assert(is_interleaving(vec_dst@, src1, wd));
                assert(is_interleaving(a0, b0, wd + m1.reverse()));
                assert(wd + m1.reverse() =~= w + merged_rev@.reverse());
            }
        }
    }
    proof {
        assert(vec@ =~= Seq::<T>::empty());
        lemma_interleaving_right_empty(vec_dst@);
        assert(is_interleaving(a0, b0, vec_dst@ + merged_rev@.reverse()));
    }
    let ghost dst_base = vec_dst@;
    let ghost m0 = merged_rev@;
    // Put the merged tail back, restoring its order.
    while merged_rev.len() > 0
        invariant
            vec_dst@ + merged_rev@.reverse() == dst_base + m0.reverse(),
        decreases merged_rev@.len(),
    {
        let ghost dst1 = vec_dst@;
        let ghost m1 = merged_rev@;
        let moved = match merged_rev.pop() {
            Some(x) => x,
            None => vstd::pervasive::unreached(),
        };
        vec_dst.push(moved);
        proof {
            assert(m1.reverse() =~= seq![m1.last()] + merged_rev@.reverse());
            assert(vec_dst@ + merged_rev@.reverse() =~= dst1 + m1.reverse());
        }
    }
    proof {
        assert(merged_rev@.reverse() =~= Seq::<T>::empty());
        assert(vec_dst@ =~= dst_base + m0.reverse());
        assert(vec@ =~= Seq::<T>::empty());
    }
}

} // verus!
