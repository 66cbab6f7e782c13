//! Scans that look for the n-th occurrence of an item and fall back to the
//! last occurrence seen when there are fewer.

use vstd::prelude::*;
use vstd::std_specs::cmp::PartialEqSpec;
use vstd::std_specs::iter::IteratorSpec;

verus! {

/// Number of positions of `data` at which `item` compares equal.
pub open spec fn count_matches<T: PartialEq>(data: Seq<T>, item: T) -> nat
    decreases data.len(),
{
    if data.len() == 0 {
        0
    } else {
        count_matches(data.drop_last(), item) + if item.eq_spec(&data.last()) {
            1nat
        } else {
            0nat
        }
    }
}

/// Counting distributes over concatenation.
pub proof fn lemma_count_matches_concat<T: PartialEq>(a: Seq<T>, b: Seq<T>, item: T)
    ensures
        count_matches(a + b, item) == count_matches(a, item) + count_matches(b, item),
    decreases b.len(),
{
    if b.len() == 0 {
        assert(a + b =~= a);
    } else {
        assert((a + b).drop_last() =~= a + b.drop_last());
        assert((a + b).last() == b.last());
        lemma_count_matches_concat(a, b.drop_last(), item);
    }
}

/// There are no more matches than items.
pub proof fn lemma_count_matches_bound<T: PartialEq>(data: Seq<T>, item: T)
    ensures
        count_matches(data, item) <= data.len(),
    decreases data.len(),
{
    if data.len() > 0 {
        lemma_count_matches_bound(data.drop_last(), item);
    }
}

/// The count of a single item is one or zero.
pub proof fn lemma_count_matches_one<T: PartialEq>(x: T, item: T)
    ensures
        count_matches(seq![x], item) == if item.eq_spec(&x) {
            1nat
        } else {
            0nat
        },
{
    assert(seq![x].drop_last() =~= Seq::<T>::empty());
    assert(seq![x].last() == x);
    assert(count_matches(Seq::<T>::empty(), item) == 0);
}

/// Counting over a sequence is the sum of the counts on both sides of any cut.
pub proof fn lemma_count_matches_split<T: PartialEq>(data: Seq<T>, item: T, at: int)
    requires
        0 <= at <= data.len(),
    ensures
        count_matches(data, item) == count_matches(data.take(at), item) + count_matches(
            data.skip(at),
            item,
        ),
{
    assert(data =~= data.take(at) + data.skip(at));
    lemma_count_matches_concat(data.take(at), data.skip(at), item);
}

/// What a forward scan for occurrence number `nth` (counted from zero) of
/// `item` reports: `found` is `None` when `item` does not occur; otherwise it
/// is the pair of an occurrence number and the index of that occurrence,
/// which is number `nth` when there are that many and the last one when
/// there are fewer.
pub open spec fn is_nth_or_last<T: PartialEq>(
    data: Seq<T>,
    item: T,
    nth: nat,
    found: Option<(usize, usize)>,
) -> bool {
    match found {
        None => count_matches(data, item) == 0,
        Some((number, index)) => {
            &&& index < data.len()
            &&& item.eq_spec(&data[index as int])
            &&& count_matches(data.take(index as int), item) == number
            &&& number <= nth
            &&& number < nth ==> count_matches(data.skip(index + 1), item) == 0
        },
    }
}

/// The same for a scan that starts at the end and counts occurrences from
/// the right.
pub open spec fn is_nth_or_last_from_end<T: PartialEq>(
    data: Seq<T>,
    item: T,
    nth: nat,
    found: Option<(usize, usize)>,
) -> bool {
    match found {
        None => count_matches(data, item) == 0,
        Some((number, index)) => {
            &&& index < data.len()
            &&& item.eq_spec(&data[index as int])
            &&& count_matches(data.skip(index + 1), item) == number
            &&& number <= nth
            &&& number < nth ==> count_matches(data.take(index as int), item) == 0
        },
    }
}

/// Looks for occurrence number `nth` of `item` in `data`, counting from zero
/// and from the front. Returns the number and the index of that occurrence,
/// or of the last occurrence when there are fewer, or `None` when `item`
/// does not occur at all.
pub fn find_nth_or_last<T: Eq>(data: &[T], item: T, nth: usize) -> (found: Option<(usize, usize)>)
    ensures
        T::obeys_eq_spec() ==> is_nth_or_last(data@, item, nth as nat, found),
{
    let mut last_found: Option<(usize, usize)> = None;
    let mut cnt: usize = 0;
    let mut idx: usize = 0;
    while idx < data.len()
        invariant
            idx <= data.len(),
            cnt <= idx,
            cnt <= nth,
            T::obeys_eq_spec() ==> {
                &&& count_matches(data@.take(idx as int), item) == cnt
                &&& cnt == 0 ==> last_found is None
                &&& cnt > 0 ==> (last_found matches Some((number, index)) && {
                    &&& number + 1 == cnt
                    &&& index < idx
                    &&& item.eq_spec(&data@[index as int])
                    &&& count_matches(data@.take(index as int), item) == number
                    &&& count_matches(data@.subrange(index + 1, idx as int), item) == 0
                })
            },
        decreases data.len() - idx,
    {
        let hit = item == data[idx];
        proof {
            if T::obeys_eq_spec() {
                assert(data@.take(idx + 1).drop_last() =~= data@.take(idx as int));
                if hit {
                    assert(data@.subrange(idx + 1, idx + 1) =~= Seq::<T>::empty());
                } else if cnt > 0 {
                    let index = last_found.unwrap().1;
                    assert(data@.subrange(index + 1, idx + 1).drop_last() =~= data@.subrange(
                        index + 1,
                        idx as int,
                    ));
                }
            }
        }
        if hit {
            last_found = Some((cnt, idx));
            if nth == cnt {
                return last_found;
            }
            cnt += 1;
        }
        idx += 1;
    }
    proof {
        if T::obeys_eq_spec() {
            assert(data@.take(idx as int) =~= data@);
            if cnt > 0 {
                let index = last_found.unwrap().1;
                assert(data@.subrange(index + 1, idx as int) =~= data@.skip(index + 1));
            }
        }
    }
    last_found
}

/// Looks for occurrence number `nth` of `item` in `data`, counting from zero
/// and from the end. Returns the number and the index of that occurrence, or
/// of the leftmost occurrence when there are fewer, or `None` when `item`
/// does not occur at all.
pub fn rfind_nth_or_last<T: Eq>(data: &[T], item: T, nth: usize) -> (found: Option<
    (usize, usize),
>)
    ensures
        T::obeys_eq_spec() ==> is_nth_or_last_from_end(data@, item, nth as nat, found),
{
    let mut last_found: Option<(usize, usize)> = None;
    let mut cnt: usize = 0;
    let mut idx: usize = data.len();
    while idx > 0
        invariant
            idx <= data.len(),
            cnt <= data.len() - idx,
            cnt <= nth,
            T::obeys_eq_spec() ==> {
                &&& count_matches(data@.skip(idx as int), item) == cnt
                &&& cnt == 0 ==> last_found is None
                &&& cnt > 0 ==> (last_found matches Some((number, index)) && {
                    &&& number + 1 == cnt
                    &&& idx <= index < data.len()
                    &&& item.eq_spec(&data@[index as int])
                    &&& count_matches(data@.skip(index + 1), item) == number
                    &&& count_matches(data@.subrange(idx as int, index as int), item) == 0
                })
            },
        decreases idx,
    {
        idx -= 1;
        let hit = item == data[idx];
        proof {
            if T::obeys_eq_spec() {
                lemma_count_matches_split(data@.skip(idx as int), item, 1);
                assert(data@.skip(idx as int).skip(1) =~= data@.skip(idx + 1));
                assert(data@.skip(idx as int).take(1) =~= seq![data@[idx as int]]);
                lemma_count_matches_one(data@[idx as int], item);
                if hit {
                    assert(data@.subrange(idx as int, idx as int) =~= Seq::<T>::empty());
                } else if cnt > 0 {
                    let index = last_found.unwrap().1;
                    let gap = data@.subrange(idx as int, index as int);
                    lemma_count_matches_split(gap, item, 1);
                    assert(gap.take(1) =~= seq![data@[idx as int]]);
                    assert(gap.skip(1) =~= data@.subrange(idx + 1, index as int));
                }
            }
        }
        if hit {
            last_found = Some((cnt, idx));
            if nth == cnt {
                return last_found;
            }
            cnt += 1;
        }
    }
    proof {
        if T::obeys_eq_spec() {
            assert(data@.skip(0) =~= data@);
            if cnt > 0 {
                let index = last_found.unwrap().1;
                assert(data@.subrange(0, index as int) =~= data@.take(index as int));
            }
        }
    }
    last_found
}

/// Takes items from `iter` until item number `nth` (counted from zero) has
/// been taken or the iterator ends. Returns the last item taken with its
/// number, or `None` when the iterator was empty.
pub fn nth_or_last<I: Iterator>(iter: I, nth: usize) -> (found: Option<(I::Item, usize)>)
    ensures
        iter.obeys_prophetic_iter_laws() ==> (match found {
            None => iter.remaining().len() == 0,
            Some((item, number)) => {
                &&& number < iter.remaining().len()
                &&& item == iter.remaining()[number as int]
                &&& number <= nth
                &&& number < nth ==> number + 1 == iter.remaining().len()
            },
        }),
{
    let mut iter = iter;
    let ghost all = iter.remaining();
    let ghost lawful = iter.obeys_prophetic_iter_laws();
    let mut cnt: usize = 0;
    let mut res: Option<(I::Item, usize)> = None;
    let mut done = false;
    while !done
        invariant
            cnt <= nth,
            iter.obeys_prophetic_iter_laws() == lawful,
            lawful ==> {
                &&& cnt <= all.len()
                &&& !done ==> iter.remaining() == all.skip(cnt as int)
                &&& !done && cnt == 0 ==> res is None
                &&& !done && cnt > 0 ==> res == Some((all[cnt - 1], (cnt - 1) as usize))
                &&& done ==> (match res {
                    None => all.len() == 0,
                    Some((item, number)) => {
                        &&& number < all.len()
                        &&& item == all[number as int]
                        &&& number <= nth
                        &&& number < nth ==> number + 1 == all.len()
                    },
                })
            },
        decreases (if done { 0int } else { 1int }), nth - cnt,
    {
        match iter.next() {
            Some(item) => {
                proof {
                    if iter.obeys_prophetic_iter_laws() {
                        assert(all.skip(cnt as int).drop_first() =~= all.skip(cnt + 1));
                    }
                }
                res = Some((item, cnt));
                if cnt == nth {
                    done = true;
                } else {
                    cnt += 1;
                }
            },
            None => {
                done = true;
            },
        }
    }
    res
}

} // verus!
