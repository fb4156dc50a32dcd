//! A dictionary for small integer keys: a vector with one slot for each key
//! up to the largest, where a slot holds a value or nothing.

use vstd::prelude::*;

verus! {

/// `slots`, made at least `len` long with empty slots.
pub open spec fn grown<T>(slots: Seq<Option<T>>, len: int) -> Seq<Option<T>> {
    Seq::new(
        if slots.len() >= len {
            slots.len()
        } else {
            len as nat
        },
        |i: int|
            if i < slots.len() {
                slots[i]
            } else {
                None
            },
    )
}

/// The values of the slots of `slots` from `from` on, in the order of the
/// keys.
pub open spec fn filled_from<T>(slots: Seq<Option<T>>, from: int) -> Seq<T>
    decreases slots.len() - from,
{
    if from < 0 || from >= slots.len() {
        Seq::empty()
    } else {
        match slots[from] {
            Some(value) => seq![value] + filled_from(slots, from + 1),
            None => filled_from(slots, from + 1),
        }
    }
}

pub struct FastDictionary<T> {
    pub vec: Vec<Option<T>>,
}

impl<T> FastDictionary<T> {
    /// The dictionary has a value under `key`.
    pub open spec fn filled(&self, key: int) -> bool {
        0 <= key < self.vec@.len() && self.vec@[key] is Some
    }

    /// The value under `key`.
    pub open spec fn value(&self, key: int) -> T
        recommends
            self.filled(key),
    {
        self.vec@[key].unwrap()
    }

    /// A dictionary with `max_index` empty slots, or none where `max_index`
    /// is negative.
    pub fn new(max_index: i32) -> (dictionary: FastDictionary<T>)
        ensures
            dictionary.vec@ == grown(Seq::<Option<T>>::empty(), max_index as int),
    {
        let mut vec: Vec<Option<T>> = Vec::new();
        let mut i: i32 = 0;
        while i < max_index
            invariant
                0 <= i,
                i <= max_index || i == 0,
                vec@.len() == i,
                forall|k: int| 0 <= k < i ==> (#[trigger] vec@[k]) is None,
            decreases max_index - i,
        {
            vec.push(None);
            i = i + 1;
        }
        assert(vec@ =~= grown(Seq::<Option<T>>::empty(), max_index as int));
        FastDictionary { vec }
    }

    /// Stores `value` under `key`, in place of what was there. The
    /// dictionary grows to `key + 1` slots where it was shorter.
    pub fn insert(&mut self, key: usize, value: T)
        requires
            key < usize::MAX,
        ensures
            final(self).vec@ == grown(old(self).vec@, key + 1).update(key as int, Some(value)),
    {
        while self.vec.len() <= key
            invariant
                key < usize::MAX,
                old(self).vec@.len() <= self.vec@.len(),
                self.vec@.len() <= key + 1 || self.vec@.len() == old(self).vec@.len(),
                forall|k: int|
                    0 <= k < self.vec@.len() ==> (#[trigger] self.vec@[k]) == grown(
                        old(self).vec@,
                        key + 1,
                    )[k],
            decreases key + 1 - self.vec@.len(),
        {
            self.vec.push(None);
        }
        assert(self.vec@ =~= grown(old(self).vec@, key + 1));
        self.vec[key] = Some(value);
    }

    /// Stores `value` under `key`, which must be a slot of the dictionary.
    pub fn insert_no_check(&mut self, key: usize, value: T)
        requires
            key < old(self).vec@.len(),
        ensures
            final(self).vec@ == old(self).vec@.update(key as int, Some(value)),
    {
        self.vec[key] = Some(value);
    }

    /// The value under `key`, which must be there.
    pub fn get_no_check(&self, key: isize) -> (value: &T)
        requires
            self.filled(key as int),
        ensures
            *value == self.value(key as int),
    {
        self.vec[key as usize].as_ref().unwrap()
    }

    /// The value under `key`, which must be there, to change it.
    pub fn get_mut_no_check(&mut self, key: isize) -> (value: &mut T)
        requires
            old(self).filled(key as int),
        ensures
            *value == old(self).value(key as int),
            final(self).vec@ == old(self).vec@.update(key as int, Some(*final(value))),
    {
        self.vec[key as usize].as_mut().unwrap()
    }

    /// The value under `key`, to change it, or `None` where the dictionary
    /// has no such slot. A slot that is there must hold a value.
    pub fn get_mut(&mut self, key: usize) -> (value: Option<&mut T>)
        requires
            key < old(self).vec@.len() ==> old(self).filled(key as int),
        ensures
            value.is_some() == (key < old(self).vec@.len()),
            value.is_some() ==> *value.unwrap() == old(self).value(key as int),
            value.is_some() ==> final(self).vec@ == old(self).vec@.update(
                key as int,
                Some(*final(value.unwrap())),
            ),
            value.is_none() ==> final(self).vec@ == old(self).vec@,
    {
        if key < self.vec.len() {
            self.vec[key].as_mut()
        } else {
            None
        }
    }

    /// The values under two different keys, which must both be there, to
    /// change them side by side.
    pub fn get2_mut_no_check(&mut self, key: isize, key2: isize) -> (values: (&mut T, &mut T))
        requires
            old(self).filled(key as int),
            old(self).filled(key2 as int),
            key != key2,
        ensures
            *values.0 == old(self).value(key as int),
            *values.1 == old(self).value(key2 as int),
            final(self).vec@ == old(self).vec@.update(key as int, Some(*final(values.0))).update(
                key2 as int,
                Some(*final(values.1)),
            ),
    {
        let a = key as usize;
        let b = key2 as usize;
        let slice = self.vec.as_mut_slice();
        if a < b {
            let (left, right) = slice.split_at_mut(b);
            (left[a].as_mut().unwrap(), right[0].as_mut().unwrap())
        } else {
            let (left, right) = slice.split_at_mut(a);
            (right[0].as_mut().unwrap(), left[b].as_mut().unwrap())
        }
    }

    /// Hands the value under `n`, which must be there, to `f`, once: the
    /// slot holds afterwards what `f` made of the value, and every other
    /// slot is as before.
    pub fn traverse<F>(&mut self, n: isize, mut f: F) where F: FnMut(&mut T)
        requires
            old(self).filled(n as int),
            forall|value: &mut T| *value == old(self).value(n as int) ==> call_requires(f, (value,)),
        ensures
            exists|value: &mut T|
                {
                    &&& *value == old(self).value(n as int)
                    &&& #[trigger] call_ensures(f, (value,), ())
                    &&& final(self).vec@ == old(self).vec@.update(n as int, Some(*final(value)))
                },
    {
        let value = self.get_mut_no_check(n);
        f(value);
    }

    /// Walks the values of the dictionary in the order of their keys, to
    /// change them.
    pub fn iter_mut(&mut self) -> (iter: FastDictIterMut<'_, T>)
        ensures
            iter.rest() == filled_from(old(self).vec@, 0),
    {
        let mut rest: &mut [Option<T>] = self.vec.as_mut_slice();
        let mut items: Vec<&mut T> = Vec::new();
        let ghost slots = old(self).vec@;
        while rest.len() > 0
            invariant
                rest@ == slots.take(rest@.len() as int),
                rest@.len() <= slots.len(),
                upcoming(items@) == filled_from(slots, rest@.len() as int),
            decreases rest@.len(),
        {
            let n = rest.len();
            let (front, last) = rest.split_at_mut(n - 1);
            match last[0].as_mut() {
                Some(value) => {
                    items.push(value);
                },
                None => {},
            }
            rest = front;
        }
        FastDictIterMut { items }
    }

    /// Walks the values of the dictionary in the order of their keys.
    pub fn iter(&self) -> (iter: FastDictIter<'_, T>)
        ensures
            iter.rest() == filled_from(self.vec@, 0),
    {
        FastDictIter { vec: &self.vec, position: 0 }
    }
}

/// The values behind `items`, from the last reference to the first.
pub open spec fn upcoming<T>(items: Seq<&mut T>) -> Seq<T> {
    Seq::new(items.len(), |i: int| *items[items.len() - 1 - i])
}

/// A walk over the values of a dictionary, in the order of their keys, that
/// lets each value be changed.
pub struct FastDictIterMut<'a, T> {
    items: Vec<&'a mut T>,
}

impl<'a, T> FastDictIterMut<'a, T> {
    /// The values that the walk has still to give, in their order.
    pub closed spec fn rest(&self) -> Seq<T> {
        upcoming(self.items@)
    }

    /// The next value, or `None` when the walk is over.
    pub fn next(&mut self) -> (item: Option<&'a mut T>)
        ensures
            item.is_some() == (old(self).rest().len() > 0),
            item.is_some() ==> *item.unwrap() == old(self).rest()[0],
            item.is_some() ==> final(self).rest() == old(self).rest().drop_first(),
            item.is_none() ==> final(self).rest() == old(self).rest(),
    {
        let item = self.items.pop();
        proof {
            if item.is_some() {
                assert(self.rest() =~= old(self).rest().drop_first());
            }
        }
        item
    }
}

/// A walk over the values of a dictionary, in the order of their keys.
pub struct FastDictIter<'a, T> {
    vec: &'a Vec<Option<T>>,
    position: usize,
}

impl<'a, T> FastDictIter<'a, T> {
    /// The values that the walk has still to give, in their order.
    pub closed spec fn rest(&self) -> Seq<T> {
        filled_from(self.vec@, self.position as int)
    }

    /// The next value, or `None` when the walk is over.
    pub fn next(&mut self) -> (item: Option<&'a T>)
        ensures
            item.is_some() == (old(self).rest().len() > 0),
            item.is_some() ==> *item.unwrap() == old(self).rest()[0] && final(self).rest() == old(
                self,
            ).rest().drop_first(),
            item.is_none() ==> final(self).rest() == old(self).rest(),
    {
        while self.position < self.vec.len()
            invariant
                self.vec == old(self).vec,
                self.rest() == old(self).rest(),
            decreases self.vec@.len() - self.position,
        {
            let here = self.position;
            self.position = self.position + 1;
            match &self.vec[here] {
                Some(value) => {
                    proof {
                        assert(old(self).rest() == seq![*value] + self.rest());
                        assert(old(self).rest().drop_first() =~= self.rest());
                    }
                    return Some(value);
                },
                None => {},
            }
        }
        None
    }
}

} // verus!
