//! The index decisions behind the list operations that remove elements:
//! which positions `swap_remove` touches, and the back-to-front order in which
//! `retain` removes, so that every removal still addresses the element it was
//! chosen for.

use vstd::prelude::*;

verus! {

/// What removing position `index` by swapping with the last element takes.
#[derive(Debug, Clone, Copy, PartialEq, Eq)]
pub enum SwapRemove {
    /// The position is past the end: nothing is removed.
    OutOfRange,
    /// The position is the last one: it is removed where it stands.
    TakeLast,
    /// The last element (at the given position) is swapped in first, then the
    /// list is truncated by one.
    SwapWithLast(usize),
}

/// `s` with positions `i` and `j` exchanged.
pub open spec fn swapped<T>(s: Seq<T>, i: int, j: int) -> Seq<T> {
    s.update(i, s[j]).update(j, s[i])
}

/// The list after removing position `index` of `s` as `swap_remove` does: the
/// former last element takes `index`.
pub open spec fn swap_removed<T>(s: Seq<T>, index: int) -> Seq<T> {
    s.update(index, s.last()).drop_last()
}

/// The list left by carrying out a removal plan on `s`.
pub open spec fn apply_swap_remove<T>(s: Seq<T>, index: int, plan: SwapRemove) -> Seq<T> {
    match plan {
        SwapRemove::OutOfRange => s,
        SwapRemove::TakeLast => s.remove(index),
        SwapRemove::SwapWithLast(last) => swapped(s, index, last as int).remove(last as int),
    }
}

/// Decides how to remove position `index` from a list of `len` elements.
pub fn plan_swap_remove(len: usize, index: usize) -> (plan: SwapRemove)
    ensures
        plan is OutOfRange <==> index >= len,
        plan is TakeLast <==> index < len && index == len - 1,
        plan matches SwapRemove::SwapWithLast(last) ==> index < last && last == len - 1,
{
    if index >= len {
        SwapRemove::OutOfRange
    } else if index == len - 1 {
        SwapRemove::TakeLast
    } else {
        SwapRemove::SwapWithLast(len - 1)
    }
}

/// Carrying out the plan removes exactly the element at `index` when it
/// exists, with the former last element taking its place; out of range,
/// the list is unchanged.
pub proof fn lemma_swap_remove_plan<T>(s: Seq<T>, index: usize, plan: SwapRemove)
    requires
        s.len() <= usize::MAX,
        plan is OutOfRange <==> index >= s.len(),
        plan is TakeLast <==> index < s.len() && index == s.len() - 1,
        plan matches SwapRemove::SwapWithLast(last) ==> index < last && last == s.len() - 1,
    ensures
        index >= s.len() ==> apply_swap_remove(s, index as int, plan) == s,
        index < s.len() ==> apply_swap_remove(s, index as int, plan) == swap_removed(
            s,
            index as int,
        ),
        index < s.len() ==> apply_swap_remove(s, index as int, plan).len() == s.len() - 1,
{
    if index < s.len() {
        assert(apply_swap_remove(s, index as int, plan) =~= swap_removed(s, index as int));
    }
}

/// Removes the positions of `rm`, one after the other, from `s`.
pub open spec fn remove_all<T>(s: Seq<T>, rm: Seq<usize>) -> Seq<T>
    decreases rm.len(),
{
    if rm.len() == 0 {
        s
    } else {
        remove_all(s.remove(rm[0] as int), rm.drop_first())
    }
}

/// The elements of `s` whose flag in `keep` is set, in order.
pub open spec fn kept<T>(s: Seq<T>, keep: Seq<bool>) -> Seq<T>
    decreases s.len(),
{
    if s.len() == 0 || keep.len() == 0 {
        Seq::empty()
    } else if keep.last() {
        kept(s.drop_last(), keep.drop_last()).push(s.last())
    } else {
        kept(s.drop_last(), keep.drop_last())
    }
}

/// The positions whose flag is clear, last first.
pub open spec fn removal_order(keep: Seq<bool>) -> Seq<usize>
    decreases keep.len(),
{
    if keep.len() == 0 {
        Seq::empty()
    } else if keep.last() {
        removal_order(keep.drop_last())
    } else {
        seq![(keep.len() - 1) as usize] + removal_order(keep.drop_last())
    }
}

/// Strictly decreasing positions, all below `n`.
pub open spec fn descending_below(rm: Seq<usize>, n: int) -> bool {
    &&& forall|i: int| 0 <= i < rm.len() ==> #[trigger] rm[i] < n
    &&& forall|i: int, j: int| 0 <= i < j < rm.len() ==> rm[j] < rm[i]
}

/// The positions `retain` removes, given whether each element is kept: those
/// not kept, back to front.
pub fn retain_removals(keep: &[bool]) -> (rm: Vec<usize>)
    ensures
        rm@ == removal_order(keep@),
{
    let mut rm: Vec<usize> = Vec::new();
    let mut i: usize = keep.len();
    assert(keep@.take(i as int) =~= keep@);
    assert(rm@ + removal_order(keep@.take(i as int)) =~= removal_order(keep@));
    while i > 0
        invariant
            i <= keep@.len(),
            rm@ + removal_order(keep@.take(i as int)) == removal_order(keep@),
        decreases i,
    {
        let prefix = Ghost(keep@.take(i as int));
        assert(prefix@.drop_last() =~= keep@.take(i - 1));
        i = i - 1;
        if !keep[i] {
            rm.push(i);
            assert(rm@ + removal_order(keep@.take(i as int)) =~= removal_order(keep@));
        }
    }
    assert(keep@.take(0) =~= Seq::<bool>::empty());
    assert(rm@ + removal_order(keep@.take(0)) =~= rm@);
    rm
}

proof fn lemma_removal_order_descending(keep: Seq<bool>)
    requires
        keep.len() <= usize::MAX,
    ensures
        descending_below(removal_order(keep), keep.len() as int),
    decreases keep.len(),
{
    if keep.len() > 0 {
        lemma_removal_order_descending(keep.drop_last());
        let r = removal_order(keep.drop_last());
        if !keep.last() {
            let full = removal_order(keep);
            assert(full =~= seq![(keep.len() - 1) as usize] + r);
            assert forall|i: int| 0 <= i < full.len() implies #[trigger] full[i] < keep.len() by {
                if i > 0 {
                    assert(full[i] == r[i - 1]);
                }
            }
            assert forall|i: int, j: int| 0 <= i < j < full.len() implies full[j] < full[i] by {
                assert(full[j] == r[j - 1]);
                assert(r[j - 1] < keep.len() - 1);
                if i > 0 {
                    assert(full[i] == r[i - 1]);
                }
            }
        }
    }
}

/// Removing positions below the last keeps the last element last.
proof fn lemma_remove_all_push<T>(s: Seq<T>, x: T, rm: Seq<usize>)
    requires
        descending_below(rm, s.len() as int),
    ensures
        remove_all(s.push(x), rm) == remove_all(s, rm).push(x),
    decreases rm.len(),
{
    if rm.len() > 0 {
        let r = rm[0] as int;
        assert(s.push(x).remove(r) =~= s.remove(r).push(x));
        assert forall|i: int| 0 <= i < rm.drop_first().len() implies #[trigger] rm.drop_first()[i]
            < s.remove(r).len() by {
            assert(rm[i + 1] < rm[0]);
        }
        assert forall|i: int, j: int|
            0 <= i < j < rm.drop_first().len() implies rm.drop_first()[j] < rm.drop_first()[i] by {
            assert(rm[j + 1] < rm[i + 1]);
        }
        lemma_remove_all_push(s.remove(r), x, rm.drop_first());
    }
}

/// Removing back to front leaves exactly the kept elements, in their order:
/// each removal addresses a position that no earlier removal has shifted.
pub proof fn lemma_retain_removals<T>(s: Seq<T>, keep: Seq<bool>)
    requires
        keep.len() == s.len(),
        s.len() <= usize::MAX,
    ensures
        remove_all(s, removal_order(keep)) == kept(s, keep),
    decreases s.len(),
{
    if s.len() > 0 {
        let s1 = s.drop_last();
        let k1 = keep.drop_last();
        lemma_retain_removals(s1, k1);
        lemma_removal_order_descending(k1);
        assert(s =~= s1.push(s.last()));
        if keep.last() {
            lemma_remove_all_push(s1, s.last(), removal_order(k1));
        } else {
            assert(removal_order(keep) =~= seq![(s.len() - 1) as usize] + removal_order(k1));
            assert(removal_order(keep)[0] == s.len() - 1);
            assert(removal_order(keep).drop_first() =~= removal_order(k1));
            assert(s.remove(s.len() - 1) =~= s1);
        }
    }
}

} // verus!
