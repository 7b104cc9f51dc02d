//! An allocator of values addressed by typed indexes, and of runs of values addressed by
//! typed slice indexes. Values are never removed, so every index stays valid.
use core::marker::PhantomData;
use vstd::prelude::*;

verus! {

/// Values of type `T`, each at the position it was allocated at.
pub struct Arena<T> {
    vec: Vec<T>,
}

impl<T> View for Arena<T> {
    type V = Seq<T>;

    /// The values in the order they were allocated.
    closed spec fn view(&self) -> Seq<T> {
        self.vec@
    }
}

/// The position of one value in an arena of `T`.
#[derive(Debug)]
pub struct ArenaIndex<T> {
    marker: PhantomData<T>,
    idx: usize,
}

impl<T> View for ArenaIndex<T> {
    type V = nat;

    /// The position.
    closed spec fn view(&self) -> nat {
        self.idx as nat
    }
}

impl<T> Clone for ArenaIndex<T> {
    fn clone(&self) -> (r: Self)
        ensures
            r@ == self@,
    {
        ArenaIndex { marker: PhantomData, idx: self.idx }
    }
}

impl<T> Copy for ArenaIndex<T> {

}

impl<T> PartialEq for ArenaIndex<T> {
    fn eq(&self, rhs: &Self) -> (r: bool) {
        self.idx == rhs.idx
    }
}

impl<T> vstd::std_specs::cmp::PartialEqSpecImpl for ArenaIndex<T> {
    open spec fn obeys_eq_spec() -> bool {
        true
    }

    open spec fn eq_spec(&self, other: &Self) -> bool {
        self@ == other@
    }
}

/// A run of consecutive positions in an arena of `T`: `start` included, `end` excluded.
#[derive(Debug)]
pub struct ArenaSliceIndex<T> {
    marker: PhantomData<T>,
    start: usize,
    end: usize,
}

impl<T> View for ArenaSliceIndex<T> {
    type V = (nat, nat);

    /// The first position and the position after the last.
    closed spec fn view(&self) -> (nat, nat) {
        (self.start as nat, self.end as nat)
    }
}

impl<T> Clone for ArenaSliceIndex<T> {
    fn clone(&self) -> (r: Self)
        ensures
            r@ == self@,
    {
        ArenaSliceIndex { marker: PhantomData, start: self.start, end: self.end }
    }
}

impl<T> Copy for ArenaSliceIndex<T> {

}

impl<T> PartialEq for ArenaSliceIndex<T> {
    fn eq(&self, rhs: &Self) -> (r: bool) {
        self.start == rhs.start && self.end == rhs.end
    }
}

impl<T> vstd::std_specs::cmp::PartialEqSpecImpl for ArenaSliceIndex<T> {
    open spec fn obeys_eq_spec() -> bool {
        true
    }

    open spec fn eq_spec(&self, other: &Self) -> bool {
        self@ == other@
    }
}

/// One end of a sub-range, given relative to the start of a slice index.
#[derive(Debug, Clone, Copy, PartialEq, Eq)]
pub enum SliceBound {
    Unbounded,
    Included(usize),
    Excluded(usize),
}

/// The absolute start that `bound` selects in a slice `(start, end)`.
pub open spec fn sub_start(s: (nat, nat), bound: SliceBound) -> int {
    match bound {
        SliceBound::Unbounded => s.0 as int,
        SliceBound::Included(o) => s.0 + o,
        SliceBound::Excluded(o) => s.0 + o + 1,
    }
}

/// The absolute end that `bound` selects in a slice `(start, end)`.
pub open spec fn sub_end(s: (nat, nat), bound: SliceBound) -> int {
    match bound {
        SliceBound::Unbounded => s.1 as int,
        SliceBound::Included(o) => s.0 + o + 1,
        SliceBound::Excluded(o) => s.0 + o,
    }
}

/// The outcome of allocating the `Ok` values of `items`: the values before the first `Err`,
/// and that `Err` if there is one.
pub open spec fn oks_until_err<T, E>(items: Seq<Result<T, E>>) -> (Seq<T>, Option<E>)
    decreases items.len(),
{
    if items.len() == 0 {
        (Seq::empty(), None)
    } else {
        match items[0] {
            Ok(v) => {
                let rest = oks_until_err(items.drop_first());
                (seq![v] + rest.0, rest.1)
            },
            Err(e) => (Seq::empty(), Some(e)),
        }
    }
}

impl<T> Arena<T> {
    /// An empty arena.
    pub fn new() -> (a: Arena<T>)
        ensures
            a@ == Seq::<T>::empty(),
    {
        Arena { vec: Vec::new() }
    }

    /// An empty arena with room for `capacity` values.
    pub fn with_capacity(capacity: usize) -> (a: Arena<T>)
        ensures
            a@ == Seq::<T>::empty(),
    {
        Arena { vec: Vec::with_capacity(capacity) }
    }

    fn alloc_internal(&mut self, el: T) -> (idx: usize)
        requires
            old(self)@.len() < usize::MAX,
        ensures
            final(self)@ == old(self)@.push(el),
            idx == old(self)@.len(),
    {
        self.vec.push(el);
        self.len() - 1
    }

    /// Adds a value and returns its index.
    pub fn allocate(&mut self, el: T) -> (i: ArenaIndex<T>)
        requires
            old(self)@.len() < usize::MAX,
        ensures
            final(self)@ == old(self)@.push(el),
            i@ == old(self)@.len(),
    {
        ArenaIndex { marker: PhantomData, idx: self.alloc_internal(el) }
    }

    /// Adds the values in order and returns the index of their run.
    pub fn alloc_extend(&mut self, items: Vec<T>) -> (s: ArenaSliceIndex<T>)
        requires
            old(self)@.len() + items@.len() <= usize::MAX,
        ensures
            final(self)@ == old(self)@ + items@,
            s@ == (old(self)@.len(), old(self)@.len() + items@.len()),
    {
        let start = self.vec.len();
        let mut items = items;
        self.vec.append(&mut items);
        ArenaSliceIndex { marker: PhantomData, start, end: self.vec.len() }
    }

    /// Adds the `Ok` values in order. At the first `Err` the arena is left as it was and that
    /// error is returned; otherwise the index of the run of added values is returned.
    pub fn alloc_extend_result<E>(&mut self, items: Vec<Result<T, E>>) -> (r: Result<ArenaSliceIndex<T>, E>)
        requires
            old(self)@.len() + items@.len() <= usize::MAX,
        ensures
            match oks_until_err(items@).1 {
                Some(e) => final(self)@ == old(self)@ && r == Err::<ArenaSliceIndex<T>, E>(e),
                None => {
                    &&& final(self)@ == old(self)@ + oks_until_err(items@).0
                    &&& r matches Ok(s) && s@ == (old(self)@.len(), final(self)@.len())
                },
            },
    {
        let start = self.vec.len();
        let ghost old_vec = self.vec@;
        let mut pending = items;
        let ghost all = pending@;
        assert(all == items@);
        let mut k: usize = 0;
        while pending.len() > 0
            invariant
                start == old_vec.len(),
                all == items@,
                old_vec == old(self)@,
                old_vec.len() + all.len() <= usize::MAX,
                k + pending@.len() == all.len(),
                pending@ =~= all.subrange(k as int, all.len() as int),
                oks_until_err(all).1 == oks_until_err(pending@).1,
                self.vec@ + oks_until_err(pending@).0 == old_vec + oks_until_err(all).0,
                self.vec@.len() == old_vec.len() + k,
                self.vec@.subrange(0, start as int) == old_vec,
            decreases pending.len(),
        {
            let ghost rest = pending@;
            let element = pending.remove(0);
            assert(pending@ =~= rest.drop_first());
            assert(element == rest[0]);
            match element {
                Ok(v) => {
                    self.vec.push(v);
                    k = k + 1;
                    assert(self.vec@.subrange(0, start as int) =~= old_vec);
                },
                Err(e) => {
                    assert(oks_until_err(rest).1 == Some(e));
                    assert(oks_until_err(all).1 == Some(e));
                    self.vec.truncate(start);
                    assert(self.vec@ =~= old_vec);
                    return Err(e);
                },
            }
        }
        assert(self.vec@ =~= old_vec + oks_until_err(all).0);
        Ok(ArenaSliceIndex { marker: PhantomData, start, end: self.vec.len() })
    }

    /// The number of values.
    pub fn len(&self) -> (n: usize)
        ensures
            n == self@.len(),
    {
        self.vec.len()
    }

    /// The value at `i`.
    pub fn get(&self, i: ArenaIndex<T>) -> (v: &T)
        requires
            i@ < self@.len(),
        ensures
            *v == self@[i@ as int],
    {
        &self.vec[i.idx]
    }

    /// The value at `i`, to be changed in place.
    pub fn get_mut(&mut self, i: ArenaIndex<T>) -> (v: &mut T)
        requires
            i@ < old(self)@.len(),
        ensures
            *v == old(self)@[i@ as int],
            final(self)@ == old(self)@.update(i@ as int, *final(v)),
    {
        &mut self.vec[i.idx]
    }

    /// The run of values at `s`.
    pub fn get_slice(&self, s: ArenaSliceIndex<T>) -> (v: &[T])
        requires
            s@.0 <= s@.1 <= self@.len(),
        ensures
            v@ == self@.subrange(s@.0 as int, s@.1 as int),
    {
        &self.vec.as_slice()[s.start..s.end]
    }
}

impl<T> ArenaSliceIndex<T> {
    /// The part of this run that the bounds select, relative to its start.
    pub fn sub(&self, start: SliceBound, end: SliceBound) -> (s: Self)
        requires
            0 <= sub_start(self@, start) <= usize::MAX,
            0 <= sub_end(self@, end) <= usize::MAX,
        ensures
            s@ == (sub_start(self@, start) as nat, sub_end(self@, end) as nat),
    {
        ArenaSliceIndex {
            marker: PhantomData,
            start: match start {
                SliceBound::Unbounded => self.start,
                SliceBound::Included(offset) => self.start + offset,
                SliceBound::Excluded(offset) => self.start + offset + 1,
            },
            end: match end {
                SliceBound::Unbounded => self.end,
                SliceBound::Included(offset) => self.start + offset + 1,
                SliceBound::Excluded(offset) => self.start + offset,
            },
        }
    }

    /// The number of positions in the run.
    pub fn len(&self) -> (n: usize)
        requires
            self@.0 <= self@.1,
        ensures
            n == self@.1 - self@.0,
    {
        self.end - self.start
    }

    /// The index of each position of the run, in order.
    pub fn iter(&self) -> (v: Vec<ArenaIndex<T>>)
        ensures
            v@.len() == if self@.0 <= self@.1 { self@.1 - self@.0 } else { 0 },
            forall|i: int| 0 <= i < v@.len() ==> #[trigger] v@[i]@ == self@.0 + i,
    {
        let mut v: Vec<ArenaIndex<T>> = Vec::new();
        let mut idx = self.start;
        while idx < self.end
            invariant
                self.start <= idx || self.end <= self.start,
                idx <= self.end || self.end <= self.start,
                self.start <= self.end ==> v@.len() == idx - self.start,
                self.end <= self.start ==> v@.len() == 0 && idx == self.start,
                forall|i: int| 0 <= i < v@.len() ==> #[trigger] v@[i]@ == self.start + i,
            decreases self.end - idx,
        {
            v.push(ArenaIndex { marker: PhantomData, idx });
            idx = idx + 1;
        }
        v
    }
}


impl<T> core::ops::Index<ArenaIndex<T>> for Arena<T> {
    type Output = T;

    /// The value at `i`, as `get` returns it.
    fn index(&self, i: ArenaIndex<T>) -> (v: &T)
        ensures
            *v == self@[i@ as int],
    {
        &self.vec[i.idx]
    }
}

impl<T> vstd::std_specs::core::IndexSpecImpl<ArenaIndex<T>> for Arena<T> {
    open spec fn index_req(&self, index: &ArenaIndex<T>) -> bool {
        index@ < self@.len()
    }
}

/// Adding the results one by one stops at the first error: with no error, every item is `Ok`
/// and the values added are theirs, in order; otherwise the error returned is that of the
/// first `Err`, and the values before it are all `Ok`.
pub proof fn law_oks_until_err<T, E>(items: Seq<Result<T, E>>)
    ensures
        match oks_until_err(items).1 {
            None => oks_until_err(items).0.len() == items.len() && forall|i: int|
                0 <= i < items.len() ==> #[trigger] items[i] == Ok::<T, E>(oks_until_err(items).0[i]),
            Some(e) => exists|k: int|
                0 <= k < items.len() && items[k] == Err::<T, E>(e) && oks_until_err(items).0.len() == k && forall|i: int|
                    0 <= i < k ==> #[trigger] items[i] == Ok::<T, E>(oks_until_err(items).0[i]),
        },
    decreases items.len(),
{
    if items.len() > 0 {
        let rest = items.drop_first();
        law_oks_until_err(rest);
        match items[0] {
            Ok(v) => {
                let r = oks_until_err(rest);
                let all = seq![v] + r.0;
                match r.1 {
                    None => {
                        assert forall|i: int| 0 <= i < items.len() implies #[trigger] items[i] == Ok::<T, E>(all[i]) by {
                            if i > 0 {
                                assert(items[i] == rest[i - 1]);
                            }
                        }
                    },
                    Some(e) => {
                        let k = choose|k: int|
                            0 <= k < rest.len() && rest[k] == Err::<T, E>(e) && r.0.len() == k && forall|i: int|
                                0 <= i < k ==> #[trigger] rest[i] == Ok::<T, E>(r.0[i]);
                        assert(items[k + 1] == rest[k]);
                        assert forall|i: int| 0 <= i < k + 1 implies #[trigger] items[i] == Ok::<T, E>(all[i]) by {
                            if i > 0 {
                                assert(items[i] == rest[i - 1]);
                            }
                        }
                    },
                }
            },
            Err(e) => {
                assert(items[0] == Err::<T, E>(e));
            },
        }
    }
}

/// A run added to an arena holds the items added, in order: its length is theirs, and the part
/// of it from offset `a` to offset `b` holds the items from `a` to `b`.
pub proof fn law_slice_of_extend<T>(before: Seq<T>, items: Seq<T>, a: usize, b: usize)
    requires
        a <= b <= items.len(),
    ensures
        ({
            let s = (before.len(), before.len() + items.len());
            &&& s.1 - s.0 == items.len()
            &&& (before + items).subrange(s.0 as int, s.1 as int) == items
            &&& sub_start(s, SliceBound::Included(a)) == before.len() + a
            &&& sub_end(s, SliceBound::Excluded(b)) == before.len() + b
            &&& (before + items).subrange(sub_start(s, SliceBound::Included(a)), sub_end(s, SliceBound::Excluded(b)))
                == items.subrange(a as int, b as int)
            &&& sub_start(s, SliceBound::Unbounded) == s.0 && sub_end(s, SliceBound::Unbounded) == s.1
        }),
{
    let s = (before.len(), before.len() + items.len());
    assert((before + items).subrange(s.0 as int, s.1 as int) =~= items);
    assert((before + items).subrange(before.len() + a, before.len() + b) =~= items.subrange(a as int, b as int));
}

} // verus!
