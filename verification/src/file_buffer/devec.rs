//! A vector that grows and shrinks at both ends.

use vstd::prelude::*;

verus! {

/// A growable sequence with room in front of its first item, so that items
/// can be added at the front as cheaply as at the back. It views as the
/// sequence of its items, front to back.
pub struct DeVec<T> {
    data: Vec<T>,
    offset: usize,
}

/// Whether `x` is a value that `T::default` may return, or a clone of one.
pub open spec fn is_default_value<T: Default + Clone>(x: T) -> bool {
    exists|d: T| call_ensures(T::default, (), d) && cloned::<T>(d, x)
}

/// Whether `fresh` is a run of `n` default values.
pub open spec fn is_default_run<T: Default + Clone>(fresh: Seq<T>, n: nat) -> bool {
    &&& fresh.len() == n
    &&& forall|i: int| 0 <= i < n ==> is_default_value(#[trigger] fresh[i])
}

/// `<[T]>::rotate_left` of std: the first `mid` items move behind the others,
/// and the order within both groups stays. The call panics for a `mid`
/// beyond the length, which `requires` rules out.
#[verifier::external_body]
fn rotate_left<T>(v: &mut Vec<T>, mid: usize)
    requires
        mid <= old(v)@.len(),
    ensures
        final(v)@ == old(v)@.skip(mid as int) + old(v)@.take(mid as int),
{
    v.rotate_left(mid)
}

/// `<[T]>::rotate_right` of std: the last `k` items move in front of the
/// others, and the order within both groups stays. The call panics for a `k`
/// beyond the length, which `requires` rules out.
#[verifier::external_body]
fn rotate_right<T>(v: &mut Vec<T>, k: usize)
    requires
        k <= old(v)@.len(),
    ensures
        final(v)@ == old(v)@.skip(old(v)@.len() - k) + old(v)@.take(old(v)@.len() - k),
{
    v.rotate_right(k)
}

/// `Vec::shrink_to` of std: gives back spare capacity and leaves the items
/// alone.
#[verifier::external_body]
fn release_capacity<T>(v: &mut Vec<T>, min_capacity: usize)
    ensures
        final(v)@ == old(v)@,
{
    v.shrink_to(min_capacity)
}

impl<T> View for DeVec<T> {
    type V = Seq<T>;

    closed spec fn view(&self) -> Seq<T> {
        self.data@.skip(self.offset as int)
    }
}

impl<T> DeVec<T> {
    /// The storage holds the room in front and the items behind it.
    pub closed spec fn wf(&self) -> bool {
        self.offset <= self.data@.len()
    }

    /// The number of places kept free in front of the first item.
    pub closed spec fn front_room(&self) -> nat {
        self.offset as nat
    }

    /// An empty vector.
    pub fn new() -> (v: DeVec<T>)
        ensures
            v.wf(),
            v@ == Seq::<T>::empty(),
            v.front_room() == 0,
    {
        DeVec { data: Vec::new(), offset: 0 }
    }

    /// The number of items.
    pub fn len(&self) -> (n: usize)
        requires
            self.wf(),
        ensures
            n == self@.len(),
    {
        self.data.len() - self.offset
    }

    /// The items as a slice.
    pub fn as_slice(&self) -> (s: &[T])
        requires
            self.wf(),
        ensures
            s@ == self@,
    {
        let all = self.data.as_slice();
        let s = &all[self.offset..all.len()];
        assert(s@ =~= self@);
        s
    }

    /// The items as a slice that can be written to.
    pub fn as_mut_slice(&mut self) -> (s: &mut [T])
        requires
            old(self).wf(),
        ensures
            s@ == old(self)@,
            final(self).wf(),
            final(self)@ == final(s)@,
            final(self).front_room() == old(self).front_room(),
    {
        let off = self.offset;
        let all = self.data.as_mut_slice();
        let (_, tail) = all.split_at_mut(off);
        tail
    }

    /// Removes all items. The room in front stays.
    pub fn clear(&mut self)
        requires
            old(self).wf(),
        ensures
            final(self).wf(),
            final(self)@ == Seq::<T>::empty(),
            final(self).front_room() == old(self).front_room(),
    {
        self.data.truncate(self.offset);
        assert(self@ =~= Seq::<T>::empty());
    }

    /// Moves the items `shift` places towards the front of the storage.
    fn close_front(&mut self, shift: usize)
        requires
            old(self).wf(),
            shift <= old(self).front_room(),
        ensures
            final(self).wf(),
            final(self)@ == old(self)@,
            final(self).front_room() == old(self).front_room() - shift,
    {
        let ghost before = self.data@;
        let total = self.data.len();
        rotate_left(&mut self.data, shift);
        self.data.truncate(total - shift);
        self.offset = self.offset - shift;
        assert(self@ =~= before.skip(old(self).offset as int));
    }

    /// Gives back storage that is not needed for `size` items, or for the
    /// items held if they are more, and leaves at most half of that number
    /// as room in front. The items stay as they are.
    pub fn shrink_to(&mut self, size: usize)
        requires
            old(self).wf(),
        ensures
            final(self).wf(),
            final(self)@ == old(self)@,
            final(self).front_room() == if old(self).front_room() <= self::kept_size(
                size,
                old(self)@.len(),
            ) / 2 {
                old(self).front_room()
            } else {
                self::kept_size(size, old(self)@.len()) / 2
            },
    {
        let len = self.len();
        let size = if size > len {
            size
        } else {
            len
        };
        let max_offset = size / 2;
        if self.offset > max_offset {
            let shift = self.offset - max_offset;
            self.close_front(shift);
        }
        release_capacity(&mut self.data, size);
    }
}

/// The number of items that `shrink_to` keeps storage for.
pub open spec fn kept_size(size: usize, len: nat) -> nat {
    if size > len {
        size as nat
    } else {
        len
    }
}

impl<T: Default + Clone> DeVec<T> {
    /// A default value, as `T::default` makes it.
    fn filler() -> (d: T)
        ensures
            call_ensures(T::default, (), d),
    {
        let make = T::default;
        make()
    }

    /// Sets the number of items to `size` at the back: items beyond `size`
    /// are dropped from the back, and missing ones are added there as
    /// default values.
    pub fn resize_back(&mut self, size: usize)
        requires
            old(self).wf(),
        ensures
            final(self).wf(),
            final(self)@.len() == size,
            size <= old(self)@.len() ==> final(self)@ == old(self)@.take(size as int),
            size > old(self)@.len() ==> {
                &&& final(self)@.take(old(self)@.len() as int) == old(self)@
                &&& is_default_run(
                    final(self)@.skip(old(self)@.len() as int),
                    (size - old(self)@.len()) as nat,
                )
            },
            size <= usize::MAX - old(self).front_room() ==> final(self).front_room()
                == old(self).front_room(),
    {
        if size > usize::MAX - self.offset {
            let shift = self.offset;
            self.close_front(shift);
        }
        let ghost before = self.data@;
        let ghost old_len = self@.len();
        assert(old_len == before.len() - self.offset);
        let filler = Self::filler();
        self.data.resize(size + self.offset, filler);
        proof {
            if size <= old_len {
                assert(self@ =~= old(self)@.take(size as int));
            } else {
                assert(self.data@.len() == size + self.offset);
                assert(self.data@.subrange(0, before.len() as int) == before);
                assert forall|i: int| 0 <= i < old_len implies self@[i] == old(self)@[i] by {
                    assert(self.data@.subrange(0, before.len() as int)[self.offset + i]
                        == self.data@[self.offset + i]);
                }
                assert(self@.take(old_len as int) =~= old(self)@);
                let fresh = self@.skip(old_len as int);
                assert(fresh.len() == size - old_len);
                assert forall|i: int| 0 <= i < size - old_len implies is_default_value(
                    #[trigger] fresh[i],
                ) by {
                    assert(fresh[i] == self.data@[before.len() + i]);
                    assert(cloned::<T>(filler, self.data@[before.len() + i]));
                }
            }
        }
    }

    /// Sets the number of items to `size` at the front: items beyond `size`
    /// are dropped from the front, and missing ones are added there as
    /// default values.
    pub fn resize_front(&mut self, size: usize)
        requires
            old(self).wf(),
        ensures
            final(self).wf(),
            final(self)@.len() == size,
            size <= old(self)@.len() ==> final(self)@ == old(self)@.skip(
                old(self)@.len() - size,
            ),
            size > old(self)@.len() ==> {
                &&& final(self)@.skip(size - old(self)@.len()) == old(self)@
                &&& is_default_run(
                    final(self)@.take(size - old(self)@.len()),
                    (size - old(self)@.len()) as nat,
                )
            },
    {
        let len = self.len();
        assert(len == self.data@.len() - self.offset);
        if size > len {
            let extra = size - len;
            let reused = if extra < self.offset {
                extra
            } else {
                self.offset
            };
            let missing = extra - reused;
            let ghost kept = self@;
            let top = self.offset;
            let first = top - reused;
            let mut i = top;
            while i > first
                invariant
                    first <= i <= top,
                    top <= self.data@.len(),
                    self.offset == top,
                    self.data@.skip(top as int) == kept,
                    is_default_run(self.data@.subrange(i as int, top as int), (top - i) as nat),
                decreases i,
            {
                i -= 1;
                let ghost prev = self.data@;
                let filler = Self::filler();
                self.data[i] = filler;
                proof {
                    assert(self.data@ == prev.update(i as int, filler));
                    assert(self.data@.skip(top as int) =~= kept);
                    let run = self.data@.subrange(i as int, top as int);
                    let prev_run = prev.subrange(i + 1, top as int);
                    assert(run.len() == top - i);
                    assert forall|k: int| 0 <= k < top - i implies is_default_value(
                        #[trigger] run[k],
                    ) by {
                        if k == 0 {
                            assert(run[0] == filler);
                            assert(cloned::<T>(filler, filler));
                        } else {
                            assert(run[k] == prev_run[k - 1]);
                            assert(is_default_value(prev_run[k - 1]));
                        }
                    }
                }
            }
            self.offset = first;
            if missing > 0 {
                let ghost mid = self.data@;
                let total = self.data.len();
                let filler = Self::filler();
                self.data.resize(total + missing, filler);
                let ghost grown = self.data@;
                rotate_right(&mut self.data, missing);
                proof {
                    assert(first == 0);
                    assert(grown.subrange(0, total as int) == mid);
                    assert(grown.take(total as int) =~= mid);
                    assert(self@ =~= grown.skip(total as int) + mid);
                    assert(self@.skip(size - len) =~= kept);
                    let fresh = self@.take(size - len);
                    let fill = mid.subrange(0, top as int);
                    assert forall|k: int| 0 <= k < size - len implies is_default_value(
                        #[trigger] fresh[k],
                    ) by {
                        if k < missing {
                            assert(fresh[k] == grown[total + k]);
                            assert(cloned::<T>(filler, grown[total + k]));
                        } else {
                            assert(fresh[k] == fill[k - missing]);
                            assert(is_default_value(fill[k - missing]));
                        }
                    }
                }
            } else {
                proof {
                    assert(self@.skip(size - len) =~= kept);
                    assert(self@.take(size - len) =~= self.data@.subrange(first as int,
                        top as int));
                }
            }
        } else {
            let total = self.data.len();
            assert(self.offset + len == total);
            self.offset = self.offset + (len - size);
            assert(self@ =~= old(self)@.skip(old(self)@.len() - size));
        }
    }
}

} // verus!
