//! Iteration over ordered key/value entries.
use crate::db::error::DbError;
use vstd::prelude::*;

verus! {

/// A position in an ordered sequence of key/value entries.
pub trait DBIterator: Sized {
    /// The iterator's internal state is consistent.
    spec fn inv(&self) -> bool;

    /// The iterator is positioned at an entry.
    spec fn is_valid(&self) -> bool;

    /// `target` may be passed to `seek`.
    spec fn seekable(&self, target: Seq<u8>) -> bool;

    /// The key at the current position; what `key` gives back.
    spec fn current_key(&self) -> Seq<u8>;

    /// The value at the current position; what `value` gives back.
    spec fn current_value(&self) -> Seq<u8>;

    /// What `status` gives back: `Ok` or the error met so far.
    spec fn current_status(&self) -> Result<(), DbError>;

    /// `after` is `before` moved to its first entry.
    spec fn first_from(before: Self, after: Self) -> bool;

    /// `after` is `before` moved to its last entry.
    spec fn last_from(before: Self, after: Self) -> bool;

    /// `after` is `before` moved to the first entry at or after `target`.
    spec fn seek_from(before: Self, after: Self, target: Seq<u8>) -> bool;

    /// `after` is `before` moved one entry on.
    spec fn next_from(before: Self, after: Self) -> bool;

    /// `after` is `before` moved one entry back.
    spec fn prev_from(before: Self, after: Self) -> bool;

    /// `next` and `prev` may be called: a positioned iterator always can be moved.
    spec fn steppable(&self) -> bool;

    /// A positioned iterator can be moved.
    proof fn lemma_valid_steppable(&self)
        requires
            self.inv(),
        ensures
            self.is_valid() ==> self.steppable(),
    ;

    /// A bound on how many more times `next` can leave the iterator positioned.
    spec fn steps_forward(&self) -> nat;

    /// A bound on how many more times `prev` can leave the iterator positioned.
    spec fn steps_backward(&self) -> nat;

    /// A bound on both counts that holds for every consistent iterator of this type.
    spec fn steps_bound() -> nat;

    /// Both counts stay within the bound.
    proof fn lemma_steps_bounded(&self)
        requires
            self.inv(),
        ensures
            self.steps_forward() <= Self::steps_bound(),
            self.steps_backward() <= Self::steps_bound(),
    ;

    fn valid(&self) -> (r: bool)
        requires
            self.inv(),
        ensures
            r == self.is_valid(),
    ;

    fn seek_to_first(&mut self)
        requires
            old(self).inv(),
        ensures
            final(self).inv(),
            Self::first_from(*old(self), *final(self)),
    ;

    fn seek_to_last(&mut self)
        requires
            old(self).inv(),
        ensures
            final(self).inv(),
            Self::last_from(*old(self), *final(self)),
    ;

    fn seek(&mut self, target: &[u8])
        requires
            old(self).inv(),
            old(self).seekable(target@),
        ensures
            final(self).inv(),
            Self::seek_from(*old(self), *final(self), target@),
    ;

    fn next(&mut self)
        requires
            old(self).inv(),
            old(self).steppable(),
        ensures
            final(self).inv(),
            old(self).is_valid() ==> final(self).steps_forward() < old(self).steps_forward(),
            Self::next_from(*old(self), *final(self)),
    ;

    fn prev(&mut self)
        requires
            old(self).inv(),
            old(self).steppable(),
        ensures
            final(self).inv(),
            old(self).is_valid() ==> final(self).steps_backward() < old(self).steps_backward(),
            Self::prev_from(*old(self), *final(self)),
    ;

    fn key(&self) -> (r: &[u8])
        requires
            self.inv(),
        ensures
            r@ == self.current_key(),
    ;

    fn value(&self) -> (r: &[u8])
        requires
            self.inv(),
        ensures
            r@ == self.current_value(),
    ;

    fn status(&self) -> (r: Result<(), DbError>)
        requires
            self.inv(),
        ensures
            r == self.current_status(),
    ;
}

/// An iterator over no entries, carrying the corruption message that made it empty, if
/// any.
pub struct EmptyDBIterator {
    status: Option<String>,
}

impl EmptyDBIterator {
    /// The corruption message this iterator carries, if any.
    pub closed spec fn message(&self) -> Option<String> {
        self.status
    }

    /// The text of the corruption message this iterator reports, if any.
    pub open spec fn spec_status(&self) -> Option<Seq<char>> {
        match self.message() {
            Some(m) => Some(m@),
            None => None,
        }
    }

    /// An empty iterator that reports no error.
    pub fn new() -> (r: Self)
        ensures
            r.spec_status() is None,
    {
        EmptyDBIterator { status: None }
    }
}

/// An empty iterator that reports the corruption `message`.
pub fn new_error_iterator(message: String) -> (r: EmptyDBIterator)
    ensures
        r.spec_status() == Some(message@),
{
    EmptyDBIterator { status: Some(message) }
}

impl DBIterator for EmptyDBIterator {
    open spec fn inv(&self) -> bool {
        true
    }

    open spec fn is_valid(&self) -> bool {
        false
    }

    open spec fn seekable(&self, target: Seq<u8>) -> bool {
        true
    }

    open spec fn current_key(&self) -> Seq<u8> {
        Seq::empty()
    }

    open spec fn current_value(&self) -> Seq<u8> {
        Seq::empty()
    }

    open spec fn first_from(before: Self, after: Self) -> bool {
        after == before
    }

    open spec fn last_from(before: Self, after: Self) -> bool {
        after == before
    }

    open spec fn seek_from(before: Self, after: Self, target: Seq<u8>) -> bool {
        after == before
    }

    open spec fn next_from(before: Self, after: Self) -> bool {
        after == before
    }

    open spec fn prev_from(before: Self, after: Self) -> bool {
        after == before
    }

    /// Moving an empty iterator does nothing, so it may always be moved.
    open spec fn steppable(&self) -> bool {
        true
    }

    proof fn lemma_valid_steppable(&self) {
    }

    open spec fn current_status(&self) -> Result<(), DbError> {
        match self.message() {
            None => Ok(()),
            Some(m) => Err(DbError::Corruption(m)),
        }
    }

    open spec fn steps_forward(&self) -> nat {
        0
    }

    open spec fn steps_backward(&self) -> nat {
        0
    }

    open spec fn steps_bound() -> nat {
        0
    }

    proof fn lemma_steps_bounded(&self) {
    }

    fn valid(&self) -> (r: bool) {
        false
    }

    fn seek_to_first(&mut self)
        ensures
            *final(self) == *old(self),
    {
    }

    fn seek_to_last(&mut self)
        ensures
            *final(self) == *old(self),
    {
    }

    fn seek(&mut self, target: &[u8])
        ensures
            *final(self) == *old(self),
    {
    }

    fn next(&mut self) {
    }

    fn prev(&mut self) {
    }

    fn key(&self) -> (r: &[u8]) {
        &[]
    }

    fn value(&self) -> (r: &[u8]) {
        &[]
    }

    fn status(&self) -> (r: Result<(), DbError>)
        ensures
            match self.spec_status() {
                None => r is Ok,
                Some(m) => r matches Err(DbError::Corruption(e)) && e@ == m,
            },
    {
        match &self.status {
            None => Ok(()),
            Some(m) => Err(DbError::Corruption(m.clone())),
        }
    }
}

} // verus!
