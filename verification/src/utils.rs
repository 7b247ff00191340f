//! Helpers for working with extracted columns.

use vstd::prelude::*;

verus! {

/// The flags and items that stand at the same position, paired; as many pairs
/// as the shorter of the two has elements.
pub open spec fn paired<T>(flags: Seq<bool>, items: Seq<T>) -> Seq<(bool, T)> {
    Seq::new(
        if flags.len() <= items.len() { flags.len() } else { items.len() },
        |i: int| (flags[i], items[i]),
    )
}

/// Hands on the item of a pair whose flag is set.
pub open spec fn if_flagged<T>() -> spec_fn((bool, T)) -> Option<T> {
    |pair: (bool, T)| if pair.0 { Some(pair.1) } else { None }
}

/// The items whose flag is set, in order. Items beyond the last flag, and
/// flags beyond the last item, play no part.
pub open spec fn flagged<T>(flags: Seq<bool>, items: Seq<T>) -> Seq<T> {
    paired(flags, items).filter_map(if_flagged())
}

/// Keeps the items of `target_iter` whose flag in `boolean_iter` is `true`.
pub fn bool_filter<T>(boolean_iter: Vec<bool>, target_iter: Vec<T>) -> (kept: Vec<T>)
    ensures
        kept@ == flagged(boolean_iter@, target_iter@),
{
    let ghost items = target_iter@;
    let ghost pairs = paired(boolean_iter@, items);
    let flags = boolean_iter.len();
    let count = target_iter.len();
    let mut kept: Vec<T> = Vec::new();
    let mut i: usize = 0;
    for item in it: target_iter
        invariant
            it.seq() == items,
            items.len() == count,
            flags == boolean_iter@.len(),
            pairs == paired(boolean_iter@, items),
            i == it.index(),
            kept@ == pairs.take(if i <= flags { i as int } else { flags as int }).filter_map(
                if_flagged(),
            ),
    {
        if i < flags {
            proof {
                pairs.lemma_filter_map_take_succ(if_flagged(), i as int);
            }
            if boolean_iter[i] {
                kept.push(item);
            }
        }
        i = i + 1;
    }
    proof {
        assert(pairs.take(pairs.len() as int) =~= pairs);
    }
    kept
}

} // verus!
