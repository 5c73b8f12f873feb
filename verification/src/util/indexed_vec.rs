use core::marker::PhantomData;
use vstd::prelude::*;

verus! {

/// A number that can stand for a place in a vector.
pub trait USizeCast: Sized {
    /// The place that the number stands for.
    spec fn place(self) -> usize;

    /// Whether the type has a number for the place.
    spec fn reaches(val: usize) -> bool;

    fn to_usize(self) -> (r: usize)
        ensures
            r == self.place(),
    ;

    fn from_usize(val: usize) -> (r: Self)
        requires
            Self::reaches(val),
        ensures
            r.place() == val,
    ;
}

impl USizeCast for usize {
    open spec fn place(self) -> usize {
        self
    }

    open spec fn reaches(val: usize) -> bool {
        true
    }

    fn to_usize(self) -> (r: usize) {
        self
    }

    fn from_usize(val: usize) -> (r: Self) {
        val
    }
}

impl USizeCast for u32 {
    open spec fn place(self) -> usize {
        self as usize
    }

    open spec fn reaches(val: usize) -> bool {
        val <= u32::MAX
    }

    fn to_usize(self) -> (r: usize) {
        self as usize
    }

    fn from_usize(val: usize) -> (r: Self) {
        val as u32
    }
}

/// A vector whose places are told by keys of the type `Key`.
pub struct IndexedVec<Key, Value> {
    pub(crate) data: Vec<Value>,
    pub(crate) key_type: PhantomData<Key>,
}

impl<Key: USizeCast, Value> IndexedVec<Key, Value> {
    /// The values, in the order of their places.
    pub open(crate) spec fn values(&self) -> Seq<Value> {
        self.data@
    }

    pub fn new() -> (vec: IndexedVec<Key, Value>)
        ensures
            vec.values() == Seq::<Value>::empty(),
    {
        IndexedVec { data: Vec::new(), key_type: PhantomData }
    }

    /// An empty vector with room for the places before `capacity`.
    pub fn with_capacity(capacity: Key) -> (vec: IndexedVec<Key, Value>)
        ensures
            vec.values() == Seq::<Value>::empty(),
    {
        IndexedVec { data: Vec::with_capacity(capacity.to_usize()), key_type: PhantomData }
    }

    pub fn from_vec(vars: Vec<Value>) -> (vec: IndexedVec<Key, Value>)
        ensures
            vec.values() == vars@,
    {
        IndexedVec { data: vars, key_type: PhantomData }
    }

    /// The number of values, as a key: the first place that has none.
    pub fn len(&self) -> (len: Key)
        requires
            Key::reaches(self.values().len() as usize),
        ensures
            len.place() == self.values().len(),
    {
        Key::from_usize(self.data.len())
    }

    pub fn clear(&mut self)
        ensures
            final(self).values() == Seq::<Value>::empty(),
    {
        self.data.clear()
    }

    pub fn push(&mut self, value: Value)
        ensures
            final(self).values() == old(self).values().push(value),
    {
        self.data.push(value)
    }

    pub fn pop(&mut self) -> (last: Option<Value>)
        ensures
            old(self).values().len() == 0 ==> last.is_none() && final(self).values() == old(self).values(),
            old(self).values().len() > 0 ==> last == Some(old(self).values().last()) && final(self).values()
                == old(self).values().drop_last(),
    {
        self.data.pop()
    }

    /// Takes out the value at `index` and puts the last value in its place.
    pub fn swap_remove(&mut self, index: Key) -> (value: Value)
        requires
            index.place() < old(self).values().len(),
        ensures
            value == old(self).values()[index.place() as int],
            final(self).values() == old(self).values().update(
                index.place() as int,
                old(self).values().last(),
            ).drop_last(),
    {
        self.data.swap_remove(index.to_usize())
    }

    pub fn as_vec(&self) -> (vec: &Vec<Value>)
        ensures
            vec@ == self.values(),
    {
        &self.data
    }

    pub fn as_mut_vec(&mut self) -> (vec: &mut Vec<Value>)
        ensures
            vec@ == old(self).values(),
            final(self).values() == final(vec)@,
    {
        &mut self.data
    }

    /// The value at `index`.
    pub fn get(&self, index: Key) -> (value: &Value)
        requires
            index.place() < self.values().len(),
        ensures
            *value == self.values()[index.place() as int],
    {
        &self.data[index.to_usize()]
    }

    /// Puts `value` at `index`.
    pub fn set(&mut self, index: Key, value: Value)
        requires
            index.place() < old(self).values().len(),
        ensures
            final(self).values() == old(self).values().update(index.place() as int, value),
    {
        let at = index.to_usize();
        self.data[at] = value;
    }
}

impl<Key: USizeCast, Value: Clone> IndexedVec<Key, Value> {
    /// Cuts the vector down to `new_len` values, or fills it up to as many
    /// with clones of `value`.
    pub fn resize(&mut self, new_len: Key, value: Value)
        ensures
            final(self).values().len() == new_len.place(),
            forall|i: int|
                0 <= i < new_len.place() && i < old(self).values().len() ==> final(self).values()[i] == old(
                    self,
                ).values()[i],
            forall|i: int|
                old(self).values().len() <= i < new_len.place() ==> cloned(value, #[trigger] final(self).values()[i]),
    {
        self.data.resize(new_len.to_usize(), value)
    }
}

impl<Key: USizeCast, Value> Default for IndexedVec<Key, Value> {
    fn default() -> (vec: IndexedVec<Key, Value>)
        ensures
            vec.values() == Seq::<Value>::empty(),
    {
        Self::new()
    }
}

} // verus!
