//! Definitions by index and by name.

use crate::idx::from_index;
use crate::idx::Idx;
use crate::idx::IndexVec;
use vstd::hash_map::StringHashMap;
use vstd::prelude::*;

verus! {

/// A named definition.
#[derive(Debug, Clone)]
pub struct Definition<T> {
    pub name: String,
    pub value: T,
}

/// The definitions of one kind, each under the index that it was given.
#[derive(Debug, Clone)]
pub struct Scope<K: Idx, T> {
    pub defs: IndexVec<K, Definition<T>>,
}

impl<I: Idx, T> Scope<I, T> {
    /// Adds a definition and hands back its index, the next one that is free.
    pub fn define(&mut self, name: String, value: T) -> (index: I)
        ensures
            final(self).defs@ == old(self).defs@.push((Definition { name, value })),
            index == from_index::<I>(old(self).defs@.len() as usize),
    {
        self.defs.push(Definition { name, value })
    }
}

impl<K: Idx, T> Default for Scope<K, T> {
    fn default() -> (r: Self)
        ensures
            r.defs@ == Seq::<Definition<T>>::empty(),
    {
        Scope { defs: IndexVec::new() }
    }
}

/// `after` is `before` with one more definition at its end, of `name` with
/// `value`.
pub open spec fn extends<T>(
    before: Seq<Definition<T>>,
    after: Seq<Definition<T>>,
    name: Seq<char>,
    value: T,
) -> bool {
    &&& after.len() == before.len() + 1
    &&& after.drop_last() == before
    &&& after.last().name@ == name
    &&& after.last().value == value
}

/// A scope in the making, with the index of each name that has been defined.
#[verifier::reject_recursive_types(I)]
pub struct ScopeBuilder<I: Idx, T> {
    pub scope: Scope<I, T>,
    pub lookup: StringHashMap<I>,
}

impl<I: Idx, T> ScopeBuilder<I, T> {
    /// The index that the next definition will get.
    pub open spec fn next(&self) -> I {
        from_index::<I>(self.scope.defs@.len() as usize)
    }

    /// Defines a name that must be new. A name that has been seen before is
    /// refused, and from then on stands for the index of the definition that
    /// comes next.
    pub fn define(&mut self, name: &str, value: T) -> (r: Result<I, ()>)
        ensures
            final(self).lookup@ == old(self).lookup@.insert(name@, old(self).next()),
            old(self).lookup@.contains_key(name@) ==> r.is_err() && final(self).scope.defs@
                == old(self).scope.defs@,
            !old(self).lookup@.contains_key(name@) ==> r == Ok::<I, ()>(old(self).next())
                && extends(old(self).scope.defs@, final(self).scope.defs@, name@, value),
    {
        let index = self.scope.defs.next_index();
        let seen = self.lookup.contains_key(name);
        self.lookup.insert(name.to_owned(), index);
        if seen {
            return Err(());
        }
        let ghost before = self.scope.defs@;
        self.scope.define(name.to_owned(), value);
        assert(self.scope.defs@.drop_last() =~= before);
        Ok(index)
    }

    /// The index of a name, where it has been defined.
    pub fn get(&mut self, name: &str) -> (r: Option<I>)
        ensures
            final(self).lookup@ == old(self).lookup@,
            final(self).scope.defs@ == old(self).scope.defs@,
            r == (if old(self).lookup@.contains_key(name@) {
                Some(old(self).lookup@[name@])
            } else {
                None
            }),
    {
        match self.lookup.get(name) {
            Some(index) => Some(*index),
            None => None,
        }
    }

    /// The index of a name: the one that it has, or that of a new definition
    /// with `value` where it has none.
    pub fn get_or_define(&mut self, name: &str, value: T) -> (r: I)
        ensures
            old(self).lookup@.contains_key(name@) ==> r == old(self).lookup@[name@]
                && final(self).lookup@ == old(self).lookup@ && final(self).scope.defs@ == old(
                self,
            ).scope.defs@,
            !old(self).lookup@.contains_key(name@) ==> r == old(self).next()
                && final(self).lookup@ == old(self).lookup@.insert(name@, r) && extends(
                old(self).scope.defs@,
                final(self).scope.defs@,
                name@,
                value,
            ),
    {
        match self.lookup.get(name) {
            Some(index) => *index,
            None => {
                let ghost before = self.scope.defs@;
                let index = self.scope.define(name.to_owned(), value);
                self.lookup.insert(name.to_owned(), index);
                assert(self.scope.defs@.drop_last() =~= before);
                index
            },
        }
    }

    /// Hands the scope out and starts afresh: no name is defined any more.
    pub fn finish(&mut self) -> (r: Scope<I, T>)
        ensures
            r.defs@ == old(self).scope.defs@,
            final(self).scope.defs@ == Seq::<Definition<T>>::empty(),
            final(self).lookup@ == Map::<Seq<char>, I>::empty(),
    {
        self.lookup.clear();
        let mut scope = Scope::default();
        std::mem::swap(&mut scope, &mut self.scope);
        scope
    }
}

impl<I: Idx, T> Default for ScopeBuilder<I, T> {
    fn default() -> (r: Self)
        ensures
            r.scope.defs@ == Seq::<Definition<T>>::empty(),
            r.lookup@ == Map::<Seq<char>, I>::empty(),
    {
        ScopeBuilder { scope: Scope::default(), lookup: StringHashMap::new() }
    }
}

} // verus!
