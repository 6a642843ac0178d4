//! Index types and arrays that are indexed by them.

use std::fmt::Debug;
use std::hash::Hash;
use std::marker::PhantomData;
use vstd::prelude::*;
use vstd::std_specs::convert::FromSpec;
use vstd::std_specs::convert::FromSpecImpl;
use vstd::std_specs::convert::IntoSpec;

verus! {

/// A dense index type: a value that stands for exactly one `usize` and back.
pub trait Idx: Copy + Eq + Ord + Hash + From<usize> + Into<usize> + Debug {
    /// Both conversions are specified, and each undoes the other.
    proof fn lemma_conversions()
        ensures
            <Self as FromSpec<usize>>::obeys_from_spec(),
            <Self as IntoSpec<usize>>::obeys_into_spec(),
            forall|n: usize| index_of(#[trigger] from_index::<Self>(n)) == n,
            forall|i: Self| from_index::<Self>(#[trigger] index_of(i)) == i,
    ;
}

/// The position that an index stands for.
#[verifier::inline]
pub open spec fn index_of<I: Into<usize>>(i: I) -> usize {
    <I as IntoSpec<usize>>::into_spec(i)
}

/// The index that stands for a position.
#[verifier::inline]
pub open spec fn from_index<I: From<usize>>(n: usize) -> I {
    <I as FromSpec<usize>>::from_spec(n)
}

/// A growable array whose positions are named by an index type.
#[derive(Debug)]
pub struct IndexVec<I: Idx, T> {
    vec: Vec<T>,
    marker: PhantomData<I>,
}

impl<I: Idx, T> View for IndexVec<I, T> {
    type V = Seq<T>;

    closed spec fn view(&self) -> Seq<T> {
        self.vec@
    }
}

impl<I: Idx, T> IndexVec<I, T> {
    /// An array without elements.
    pub fn new() -> (r: Self)
        ensures
            r@ == Seq::<T>::empty(),
    {
        IndexVec { vec: Vec::new(), marker: PhantomData }
    }

    /// The array has no more elements than a `usize` can count.
    pub proof fn lemma_len(&self)
        ensures
            self@.len() <= usize::MAX,
    {
        assert(self.vec.len() == self.vec@.len());
    }

    /// The number of elements.
    pub fn len(&self) -> (r: usize)
        ensures
            r == self@.len(),
    {
        self.vec.len()
    }

    /// The index that the next element will get.
    pub fn next_index(&self) -> (r: I)
        ensures
            r == from_index::<I>(self@.len() as usize),
            index_of(r) == self@.len(),
    {
        proof {
            I::lemma_conversions();
            assert(index_of(from_index::<I>(self.vec.len())) == self.vec.len());
        }
        I::from(self.vec.len())
    }

    /// Adds an element at the end and hands back its index.
    pub fn push(&mut self, value: T) -> (index: I)
        ensures
            final(self)@ == old(self)@.push(value),
            index == from_index::<I>(old(self)@.len() as usize),
            index_of(index) == old(self)@.len(),
    {
        let index = self.next_index();
        self.vec.push(value);
        index
    }

    /// The element at `index`, where the array has one.
    pub fn get(&self, index: I) -> (r: Option<&T>)
        ensures
            index_of(index) < self@.len() ==> r == Some(&self@[index_of(index) as int]),
            index_of(index) >= self@.len() ==> r.is_none(),
    {
        proof {
            I::lemma_conversions();
        }
        let i: usize = index.into();
        if i < self.vec.len() {
            Some(&self.vec[i])
        } else {
            None
        }
    }

    /// The element at `index`, open to change, where the array has one.
    pub fn get_mut(&mut self, index: I) -> (r: Option<&mut T>)
        ensures
            index_of(index) >= old(self)@.len() ==> r.is_none() && final(self)@ == old(self)@,
            index_of(index) < old(self)@.len() ==> r.is_some() && *r.unwrap() == old(self)@[index_of(
                index,
            ) as int] && final(self)@ == old(self)@.update(
                index_of(index) as int,
                *final(r.unwrap()),
            ),
    {
        proof {
            I::lemma_conversions();
        }
        let i: usize = index.into();
        if i < self.vec.len() {
            Some(&mut self.vec[i])
        } else {
            None
        }
    }

    /// The element at `index`, after the array has grown to hold it: every
    /// position added is filled by one call of `f`.
    pub fn get_or_extend_with<F: FnMut() -> T>(&mut self, index: I, f: F) -> (r: &mut T)
        requires
            index_of(index) < usize::MAX,
            f.requires(()),
        ensures
            final(self)@.len() == old(self).extended_len(index),
            forall|j: int|
                0 <= j < old(self)@.len() && j != index_of(index) ==> final(self)@[j] == old(
                    self,
                )@[j],
            forall|j: int|
                old(self)@.len() <= j < final(self)@.len() && j != index_of(index) ==> f.ensures(
                    (),
                    #[trigger] final(self)@[j],
                ),
            index_of(index) < old(self)@.len() ==> *r == old(self)@[index_of(index) as int],
            index_of(index) >= old(self)@.len() ==> f.ensures((), *r),
            final(self)@[index_of(index) as int] == *final(r),
    {
        proof {
            I::lemma_conversions();
        }
        broadcast use vstd::function::group_function_axioms;

        let mut fill = f;
        let i: usize = index.into();
        while self.vec.len() <= i
            invariant
                i < usize::MAX,
                fill == f,
                f.requires(()),
                self.vec@.len() >= old(self).vec@.len(),
                self.vec@.len() == old(self).vec@.len() || self.vec@.len() <= i + 1,
                forall|j: int| 0 <= j < old(self).vec@.len() ==> self.vec@[j] == old(self).vec@[j],
                forall|j: int|
                    old(self).vec@.len() <= j < self.vec@.len() ==> f.ensures(
                        (),
                        #[trigger] self.vec@[j],
                    ),
            decreases i + 1 - self.vec.len(),
        {
            let v = fill();
            self.vec.push(v);
        }
        &mut self.vec[i]
    }

    /// The element at `index`, after the array has grown to hold it: every
    /// position added holds a default value.
    pub fn get_or_extend(&mut self, index: I) -> (r: &mut T) where T: Default
        requires
            index_of(index) < usize::MAX,
        ensures
            final(self)@.len() == old(self).extended_len(index),
            forall|j: int|
                0 <= j < old(self)@.len() && j != index_of(index) ==> final(self)@[j] == old(
                    self,
                )@[j],
            forall|j: int|
                old(self)@.len() <= j < final(self)@.len() && j != index_of(index) ==> call_ensures(
                    T::default,
                    (),
                    #[trigger] final(self)@[j],
                ),
            index_of(index) < old(self)@.len() ==> *r == old(self)@[index_of(index) as int],
            index_of(index) >= old(self)@.len() ==> call_ensures(T::default, (), *r),
            final(self)@[index_of(index) as int] == *final(r),
    {
        self.get_or_extend_with(index, T::default)
    }

    /// The length that the array has once it holds position `index`.
    pub open spec fn extended_len(&self, index: I) -> nat {
        if index_of(index) < self@.len() {
            self@.len()
        } else {
            (index_of(index) + 1) as nat
        }
    }

    /// The index of every position, in order.
    pub fn keys(&self) -> (r: Vec<I>)
        ensures
            r@.len() == self@.len(),
            forall|i: int| 0 <= i < r@.len() ==> #[trigger] r@[i] == from_index::<I>(i as usize),
    {
        let mut r: Vec<I> = Vec::new();
        let mut i: usize = 0;
        while i < self.vec.len()
            invariant
                i <= self.vec@.len(),
                r@.len() == i,
                forall|j: int| 0 <= j < i ==> #[trigger] r@[j] == from_index::<I>(j as usize),
            decreases self.vec@.len() - i,
        {
            proof {
                I::lemma_conversions();
            }
            r.push(I::from(i));
            i = i + 1;
        }
        r
    }

    /// Every element, in order.
    pub fn values(&self) -> (r: Vec<&T>)
        ensures
            r@.len() == self@.len(),
            forall|i: int| 0 <= i < r@.len() ==> *#[trigger] r@[i] == self@[i],
    {
        let mut r: Vec<&T> = Vec::new();
        let mut i: usize = 0;
        while i < self.vec.len()
            invariant
                i <= self.vec@.len(),
                r@.len() == i,
                forall|j: int| 0 <= j < i ==> *#[trigger] r@[j] == self.vec@[j],
            decreases self.vec@.len() - i,
        {
            r.push(&self.vec[i]);
            i = i + 1;
        }
        r
    }

    /// The elements, in order, each open to change.
    pub fn values_mut(&mut self) -> (r: &mut [T])
        ensures
            r@ == old(self)@,
            final(self)@ == final(r)@,
    {
        self.vec.as_mut_slice()
    }

    /// Every element, in order, without the index type.
    pub fn into_values(self) -> (r: Vec<T>)
        ensures
            r@ == self@,
    {
        self.vec
    }

    /// Every element with its index, in order, out of the array.
    pub fn into_iter(self) -> (r: Vec<(I, T)>)
        ensures
            r@.len() == self@.len(),
            forall|i: int|
                0 <= i < r@.len() ==> (#[trigger] r@[i]).0 == from_index::<I>(i as usize) && r@[i].1
                    == self@[i],
    {
        let mut r: Vec<(I, T)> = Vec::new();
        let ghost all = self.vec@;
        for value in it: self.vec
            invariant
                it.seq() == all,
                r@.len() == it.index(),
                forall|j: int|
                    0 <= j < r@.len() ==> (#[trigger] r@[j]).0 == from_index::<I>(j as usize)
                        && r@[j].1 == all[j],
        {
            let i: usize = r.len();
            r.push(map_entry((i, value)));
        }
        r
    }

    /// Every element with its index, in order.
    pub fn iter(&self) -> (r: Vec<(I, &T)>)
        ensures
            r@.len() == self@.len(),
            forall|i: int|
                0 <= i < r@.len() ==> (#[trigger] r@[i]).0 == from_index::<I>(i as usize) && *r@[i].1
                    == self@[i],
    {
        let mut r: Vec<(I, &T)> = Vec::new();
        let mut i: usize = 0;
        while i < self.vec.len()
            invariant
                i <= self.vec@.len(),
                r@.len() == i,
                forall|j: int|
                    0 <= j < i ==> (#[trigger] r@[j]).0 == from_index::<I>(j as usize) && *r@[j].1
                        == self.vec@[j],
            decreases self.vec@.len() - i,
        {
            r.push(map_entry((i, &self.vec[i])));
            i = i + 1;
        }
        r
    }
}

/// Names the position of an entry by its index.
pub fn map_entry<I: Idx, T>(entry: (usize, T)) -> (r: (I, T))
    ensures
        r.0 == from_index::<I>(entry.0),
        r.1 == entry.1,
{
    proof {
        I::lemma_conversions();
    }
    (I::from(entry.0), entry.1)
}

impl<I: Idx, T: Clone> Clone for IndexVec<I, T> {
    fn clone(&self) -> (r: Self)
        ensures
            r@.len() == self@.len(),
            forall|i: int| 0 <= i < self@.len() ==> cloned(#[trigger] self@[i], r@[i]),
    {
        IndexVec { vec: self.vec.clone(), marker: PhantomData }
    }
}

impl<I: Idx, T> Default for IndexVec<I, T> {
    fn default() -> (r: Self)
        ensures
            r@ == Seq::<T>::empty(),
    {
        IndexVec::new()
    }
}

impl<I: Idx, T> From<Vec<T>> for IndexVec<I, T> {
    fn from(vec: Vec<T>) -> (r: Self) {
        IndexVec { vec, marker: PhantomData }
    }
}

impl<I: Idx, T> FromSpecImpl<Vec<T>> for IndexVec<I, T> {
    open spec fn obeys_from_spec() -> bool {
        true
    }

    closed spec fn from_spec(vec: Vec<T>) -> Self {
        IndexVec { vec, marker: PhantomData }
    }
}

impl<I: Idx, T> From<IndexVec<I, T>> for Vec<T> {
    fn from(value: IndexVec<I, T>) -> (r: Self) {
        value.vec
    }
}

impl<I: Idx, T> FromSpecImpl<IndexVec<I, T>> for Vec<T> {
    open spec fn obeys_from_spec() -> bool {
        true
    }

    closed spec fn from_spec(value: IndexVec<I, T>) -> Self {
        value.vec
    }
}

/// A vector made from an array holds what the array held.
pub proof fn lemma_into_vec<I: Idx, T>(value: IndexVec<I, T>)
    ensures
        <Vec<T> as FromSpec<IndexVec<I, T>>>::from_spec(value)@ == value@,
{
}

/// An array made from a vector holds what the vector held.
pub proof fn lemma_from_vec<I: Idx, T>(vec: Vec<T>)
    ensures
        <IndexVec<I, T> as FromSpec<Vec<T>>>::from_spec(vec)@ == vec@,
{
}

} // verus!
