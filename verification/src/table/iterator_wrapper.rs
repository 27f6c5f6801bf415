//! An iterator holder that remembers whether its iterator is positioned and the key it is
//! at, so that callers can ask without going to the iterator.
use crate::db::error::DbError;
use crate::db::iterator::DBIterator;
use crate::util::bytes::to_vec;
use vstd::prelude::*;

verus! {

/// Holds an optional iterator together with its validity and current key.
pub struct IteratorWrapper<I: DBIterator> {
    iter: Option<I>,
    valid: bool,
    key: Vec<u8>,
}

impl<I: DBIterator> IteratorWrapper<I> {
    /// The iterator held, if any.
    pub closed spec fn inner(&self) -> Option<I> {
        self.iter
    }

    /// The remembered validity.
    pub closed spec fn spec_valid(&self) -> bool {
        self.valid
    }

    /// The remembered key.
    pub closed spec fn spec_key(&self) -> Seq<u8> {
        self.key@
    }

    /// The held iterator, if any, is consistent, the remembered validity is that of the
    /// held iterator (false when there is none), and where it is positioned the
    /// remembered key is its key.
    pub open spec fn wf(&self) -> bool {
        match self.inner() {
            Some(it) => {
                &&& it.inv()
                &&& self.spec_valid() == it.is_valid()
                &&& self.spec_valid() ==> self.spec_key() == it.current_key()
            },
            None => !self.spec_valid(),
        }
    }

    /// How many more `next` calls can leave the held iterator positioned.
    pub open spec fn steps_forward(&self) -> nat {
        match self.inner() {
            Some(it) => it.steps_forward(),
            None => 0,
        }
    }

    /// How many more `prev` calls can leave the held iterator positioned.
    pub open spec fn steps_backward(&self) -> nat {
        match self.inner() {
            Some(it) => it.steps_backward(),
            None => 0,
        }
    }

    /// A wrapper holding no iterator.
    pub fn new() -> (r: Self)
        ensures
            r.wf(),
            r.inner() is None,
    {
        IteratorWrapper { iter: None, valid: false, key: Vec::new() }
    }

    /// A wrapper holding `iter`.
    pub fn new_with_iterator(iter: Option<I>) -> (r: Self)
        requires
            iter matches Some(it) ==> it.inv(),
        ensures
            r.wf(),
            r.inner() == iter,
    {
        let mut wrapper = Self::new();
        wrapper.set(iter);
        wrapper
    }

    /// Replaces the held iterator with `iter`.
    pub fn set(&mut self, iter: Option<I>)
        requires
            iter matches Some(it) ==> it.inv(),
        ensures
            final(self).wf(),
            final(self).inner() == iter,
    {
        self.iter = iter;
        if self.iter.is_none() {
            self.valid = false;
        } else {
            self.update();
        }
    }

    /// The held iterator, if any.
    pub fn iter(&self) -> (r: Option<&I>)
        ensures
            match r {
                Some(it) => self.inner() == Some(*it),
                None => self.inner() is None,
            },
    {
        match &self.iter {
            Some(it) => Some(it),
            None => None,
        }
    }

    /// The held iterator, if any, to be changed in place; the remembered validity and key
    /// stay as they are until the next move through the wrapper.
    pub fn iter_mut(&mut self) -> (r: Option<&mut I>)
        ensures
            match r {
                Some(it) => old(self).inner() == Some(*it) && final(self).inner() == Some(
                    *final(it),
                ),
                None => old(self).inner() is None && final(self).inner() is None,
            },
            final(self).spec_valid() == old(self).spec_valid(),
            final(self).spec_key() == old(self).spec_key(),
    {
        match &mut self.iter {
            Some(it) => Some(it),
            None => None,
        }
    }

    /// Whether the held iterator was positioned when last looked at.
    pub fn valid(&self) -> (r: bool)
        ensures
            r == self.spec_valid(),
    {
        self.valid
    }

    /// The key the held iterator was at when last looked at.
    pub fn key(&self) -> (r: &[u8])
        requires
            self.spec_valid(),
        ensures
            r@ == self.spec_key(),
    {
        self.key.as_slice()
    }

    /// The value at the held iterator's position.
    pub fn value(&self) -> (r: &[u8])
        requires
            self.wf(),
            self.spec_valid(),
        ensures
            self.inner() matches Some(it) && r@ == it.current_value(),
    {
        match &self.iter {
            Some(it) => it.value(),
            None => &[],
        }
    }

    /// The held iterator's status.
    pub fn status(&self) -> (r: Result<(), DbError>)
        requires
            self.wf(),
            self.inner() is Some,
        ensures
            self.inner() matches Some(it) && r == it.current_status(),
    {
        match &self.iter {
            Some(it) => it.status(),
            None => Ok(()),
        }
    }

    /// Moves the held iterator forward.
    pub fn next(&mut self)
        requires
            old(self).wf(),
            old(self).spec_valid(),
        ensures
            final(self).wf(),
            final(self).inner() is Some,
            final(self).steps_forward() < old(self).steps_forward(),
            old(self).inner() matches Some(b) && final(self).inner() matches Some(a) && I::next_from(
                b,
                a,
            ),
    {
        if let Some(it) = &mut self.iter {
            proof {
                it.lemma_valid_steppable();
            }
            it.next();
        }
        self.update();
    }

    /// Moves the held iterator back.
    pub fn prev(&mut self)
        requires
            old(self).wf(),
            old(self).spec_valid(),
        ensures
            final(self).wf(),
            final(self).inner() is Some,
            final(self).steps_backward() < old(self).steps_backward(),
            old(self).inner() matches Some(b) && final(self).inner() matches Some(a) && I::prev_from(
                b,
                a,
            ),
    {
        if let Some(it) = &mut self.iter {
            proof {
                it.lemma_valid_steppable();
            }
            it.prev();
        }
        self.update();
    }

    /// Moves the held iterator to the first entry at or after `target`.
    pub fn seek(&mut self, target: &[u8])
        requires
            old(self).wf(),
            old(self).inner() matches Some(it) && it.seekable(target@),
        ensures
            final(self).wf(),
            final(self).inner() is Some,
            old(self).inner() matches Some(b) && final(self).inner() matches Some(a) && I::seek_from(
                b,
                a,
                target@,
            ),
    {
        if let Some(it) = &mut self.iter {
            it.seek(target);
        }
        self.update();
    }

    /// Moves the held iterator to its first entry.
    pub fn seek_to_first(&mut self)
        requires
            old(self).wf(),
            old(self).inner() is Some,
        ensures
            final(self).wf(),
            final(self).inner() is Some,
            old(self).inner() matches Some(b) && final(self).inner() matches Some(a) && I::first_from(
                b,
                a,
            ),
    {
        if let Some(it) = &mut self.iter {
            it.seek_to_first();
        }
        self.update();
    }

    /// Moves the held iterator to its last entry.
    pub fn seek_to_last(&mut self)
        requires
            old(self).wf(),
            old(self).inner() is Some,
        ensures
            final(self).wf(),
            final(self).inner() is Some,
            old(self).inner() matches Some(b) && final(self).inner() matches Some(a) && I::last_from(
                b,
                a,
            ),
    {
        if let Some(it) = &mut self.iter {
            it.seek_to_last();
        }
        self.update();
    }

    /// Looks at the held iterator again: remembers whether it is positioned and, if so,
    /// its key.
    fn update(&mut self)
        requires
            old(self).inner() matches Some(it) && it.inv(),
        ensures
            final(self).wf(),
            final(self).inner() == old(self).inner(),
    {
        if let Some(it) = &self.iter {
            self.valid = it.valid();
            if self.valid {
                self.key = to_vec(it.key());
            }
        }
    }
}

} // verus!
