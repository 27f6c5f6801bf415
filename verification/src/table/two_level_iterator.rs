//! An iterator over entries spread over blocks: an index iterator walks the blocks, and
//! for each index entry a block function opens an iterator over that block's entries.
use crate::db::error::DbError;
use crate::db::iterator::DBIterator;
use crate::db::options::ReadOptions;
use crate::table::iterator_wrapper::IteratorWrapper;
use crate::util::bytes::to_vec;
use crate::util::bytes::bytes_equal;
use vstd::prelude::*;

verus! {

/// Opens an iterator over the block that an index entry's value points at.
pub trait BlockFunction {
    /// The iterators it opens.
    type Iter: DBIterator;

    /// The targets that every iterator it opens may be asked to seek.
    spec fn target_ok(&self, target: Seq<u8>) -> bool;

    /// Opening the block that `index_value` points at may give `r`: an iterator, or
    /// nothing when it fails.
    spec fn opened(&self, index_value: Seq<u8>, r: Option<Self::Iter>) -> bool;

    /// An iterator over the block that `index_value` points at.
    fn block_iterator(&self, options: &ReadOptions, index_value: &[u8]) -> (r: Result<
        Self::Iter,
        DbError,
    >)
        requires
            !options.verify_checksums,
        ensures
            r matches Ok(it) ==> it.inv() && forall|t: Seq<u8>|
                self.target_ok(t) ==> #[trigger] it.seekable(t),
            self.opened(
                index_value@,
                match r {
                    Ok(it) => Some(it),
                    Err(_) => None,
                },
            ),
    ;
}

/// `i * w + d` grows with `i` by more than any `d` below `w`.
proof fn lemma_weighted_below(i1: nat, d1: nat, i0: nat, d0: nat, w: nat)
    by (nonlinear_arith)
    requires
        i1 < i0,
        d1 < w,
    ensures
        i1 * w + d1 < i0 * w + d0,
{
}

/// Each iterator of `s` is the one before it moved one entry on.
pub open spec fn forward_steps<I: DBIterator>(s: Seq<I>) -> bool {
    forall|i: int| 0 <= i < s.len() - 1 ==> I::next_from(#[trigger] s[i], s[i + 1])
}

/// Each iterator of `s` is the one before it moved one entry back.
pub open spec fn backward_steps<I: DBIterator>(s: Seq<I>) -> bool {
    forall|i: int| 0 <= i < s.len() - 1 ==> I::prev_from(#[trigger] s[i], s[i + 1])
}

/// `to` is `from` moved on some number of times, one entry at a time.
pub open spec fn reached_forward<I: DBIterator>(from: I, to: I) -> bool {
    exists|s: Seq<I>| s.len() >= 1 && s[0] == from && s.last() == to && #[trigger] forward_steps(s)
}

/// `to` is `from` moved back some number of times, one entry at a time.
pub open spec fn reached_backward<I: DBIterator>(from: I, to: I) -> bool {
    exists|s: Seq<I>| s.len() >= 1 && s[0] == from && s.last() == to && #[trigger] backward_steps(s)
}

/// Iterates over the entries of the blocks that an index iterator lists.
pub struct TwoLevelIterator<'b, I: DBIterator, B: BlockFunction> {
    block_function: &'b B,
    options: ReadOptions,
    status: Result<(), DbError>,
    index_iter: IteratorWrapper<I>,
    data_iter: IteratorWrapper<B::Iter>,
    data_block_handle: Vec<u8>,
}

impl<'b, I: DBIterator, B: BlockFunction> TwoLevelIterator<'b, I, B> {
    /// One more than the bound on a block iterator's step counts.
    pub open spec fn data_weight() -> nat {
        <B::Iter as DBIterator>::steps_bound() + 1
    }

    /// The index iterator's wrapper.
    pub closed spec fn index_wrapper(&self) -> IteratorWrapper<I> {
        self.index_iter
    }

    /// The block iterator's wrapper.
    pub closed spec fn data_wrapper(&self) -> IteratorWrapper<B::Iter> {
        self.data_iter
    }

    /// The block function.
    pub closed spec fn spec_block_function(&self) -> B {
        *self.block_function
    }

    /// The index iterator held.
    pub closed spec fn index_inner(&self) -> I {
        self.index_iter.inner()->0
    }

    /// Where a seek for `target` leaves the block iterators, the index iterator having
    /// been sought to `i`: at the entry that seeking the block's iterator found, or, when
    /// there was no block there, its block could not be opened, or seeking it found no
    /// entry, wherever moving on past blocks with no entry left ended.
    pub closed spec fn data_after_seek(bf: B, i: I, target: Seq<u8>, after: Self) -> bool {
        ||| (after.index_inner() == i && after.data_iter.spec_valid() && (after.data_iter.inner() matches Some(d)
            && exists|d0: B::Iter| #[trigger] B::Iter::seek_from(d0, d, target)))
        ||| !i.is_valid()
        ||| bf.opened(i.current_value(), None)
        ||| exists|d0: B::Iter, d1: B::Iter| #[trigger] B::Iter::seek_from(d0, d1, target) && !d1.is_valid()
    }

    /// Where moving to the first entry leaves the block iterators, the index iterator
    /// having moved to `i`: at the first entry of that block, or, when there was no block,
    /// it could not be opened, or it had no entry, wherever moving on ended.
    pub closed spec fn data_after_first(bf: B, i: I, after: Self) -> bool {
        ||| (after.index_inner() == i && after.data_iter.spec_valid() && (after.data_iter.inner() matches Some(d)
            && exists|d0: B::Iter| #[trigger] B::Iter::first_from(d0, d)))
        ||| !i.is_valid()
        ||| bf.opened(i.current_value(), None)
        ||| exists|d0: B::Iter, d1: B::Iter| #[trigger] B::Iter::first_from(d0, d1) && !d1.is_valid()
    }

    /// Where moving to the last entry leaves the block iterators, the index iterator
    /// having moved to `i`: at the last entry of that block, or, when there was no block,
    /// it could not be opened, or it had no entry, wherever moving back ended.
    pub closed spec fn data_after_last(bf: B, i: I, after: Self) -> bool {
        ||| (after.index_inner() == i && after.data_iter.spec_valid() && (after.data_iter.inner() matches Some(d)
            && exists|d0: B::Iter| #[trigger] B::Iter::last_from(d0, d)))
        ||| !i.is_valid()
        ||| bf.opened(i.current_value(), None)
        ||| exists|d0: B::Iter, d1: B::Iter| #[trigger] B::Iter::last_from(d0, d1) && !d1.is_valid()
    }

    /// Where every move leaves the iterator: at an entry of a block, or with the index
    /// iterator past its end and no block open.
    pub closed spec fn settled(&self) -> bool {
        self.data_iter.spec_valid() || (!self.index_iter.spec_valid() && self.data_iter.inner() is None)
    }

    /// The internal invariant: both wrappers are consistent, and an index iterator is held.
    pub closed spec fn wf(&self) -> bool {
        &&& !self.options.verify_checksums
        &&& self.index_iter.wf()
        &&& self.index_iter.inner() is Some
        &&& self.data_iter.wf()
    }

    /// An iterator over the blocks that `index_iter` lists, opened by `block_function`.
    pub fn new(index_iter: I, block_function: &'b B, options: ReadOptions) -> (r: Self)
        requires
            index_iter.inv(),
            !options.verify_checksums,
        ensures
            r.wf(),
            r.index_wrapper().inner() == Some(index_iter),
            r.data_wrapper().inner() is None,
            r.spec_block_function() == *block_function,
    {
        TwoLevelIterator {
            block_function,
            options,
            status: Ok(()),
            index_iter: IteratorWrapper::new_with_iterator(Some(index_iter)),
            data_iter: IteratorWrapper::new_with_iterator(None),
            data_block_handle: Vec::new(),
        }
    }

    /// Records `status` when both it and the recorded status are errors.
    fn save_error(&mut self, status: Result<(), DbError>)
        ensures
            final(self).status == if old(self).status is Err && status is Err {
                status
            } else {
                old(self).status
            },
            final(self).index_iter == old(self).index_iter,
            final(self).data_iter == old(self).data_iter,
            final(self).block_function == old(self).block_function,
            final(self).options == old(self).options,
    {
        if self.status.is_err() && status.is_err() {
            self.status = status;
        }
    }

    /// Replaces the block iterator, first recording the old one's status.
    fn set_data_iterator(&mut self, data_iter: Option<B::Iter>)
        requires
            old(self).wf(),
            data_iter matches Some(it) ==> it.inv(),
        ensures
            final(self).wf(),
            final(self).index_iter == old(self).index_iter,
            final(self).data_iter.inner() == data_iter,
            final(self).block_function == old(self).block_function,
            final(self).options == old(self).options,
    {
        let old_status = match self.data_iter.iter() {
            Some(old_iter) => Some(old_iter.status()),
            None => None,
        };
        if let Some(st) = old_status {
            self.save_error(st);
        }
        self.data_iter.set(data_iter);
    }

    /// Opens the block that the index iterator is at, unless it is already open; with the
    /// index iterator past its end, drops the block iterator.
    fn init_data_block(&mut self)
        requires
            old(self).wf(),
        ensures
            final(self).wf(),
            final(self).index_iter == old(self).index_iter,
            final(self).block_function == old(self).block_function,
            final(self).options == old(self).options,
            !old(self).index_iter.spec_valid() ==> final(self).data_iter.inner() is None,
            final(self).data_iter.inner() is None ==> !old(self).index_iter.spec_valid()
                || (*old(self).block_function).opened(old(self).index_inner().current_value(), None),
            final(self).data_iter.inner() == old(self).data_iter.inner() || final(self).data_iter.inner() is None
                || (final(self).data_iter.inner() matches Some(it) && forall|t: Seq<u8>|
                (*old(self).block_function).target_ok(t) ==> #[trigger] it.seekable(t)),
    {
        if !self.index_iter.valid() {
            self.set_data_iterator(None);
            return;
        }
        let handle = to_vec(self.index_iter.value());
        if self.data_iter.iter().is_some() && bytes_equal(handle.as_slice(), self.data_block_handle.as_slice()) {
            return;
        }
        match self.block_function.block_iterator(&self.options, handle.as_slice()) {
            Ok(iter) => {
                self.data_block_handle = handle;
                self.set_data_iterator(Some(iter));
            },
            Err(e) => {
                self.save_error(Err(e));
                self.set_data_iterator(None);
            },
        }
    }

    /// Moves on through the index past blocks with no entry left, opening each and
    /// positioning it at its first entry, until a block iterator is positioned or the
    /// index runs out.
    fn skip_empty_data_blocks_forward(&mut self)
        requires
            old(self).wf(),
        ensures
            final(self).wf(),
            final(self).block_function == old(self).block_function,
            final(self).index_iter.steps_forward() * Self::data_weight() + final(self).data_iter.steps_forward() <= old(self).index_iter.steps_forward() * Self::data_weight()
                + old(self).data_iter.steps_forward(),
            final(self).settled(),
            reached_forward(old(self).index_inner(), final(self).index_inner()),
            old(self).data_iter.spec_valid() ==> *final(self) == *old(self),
    {
        let ghost start = self.index_iter.steps_forward() * Self::data_weight()
            + self.data_iter.steps_forward();
        let ghost mut chain: Seq<I> = seq![self.index_inner()];
        while self.data_iter.iter().is_none() || !self.data_iter.valid()
            invariant
                self.wf(),
                start == old(self).index_iter.steps_forward() * Self::data_weight()
                    + old(self).data_iter.steps_forward(),
                self.block_function == old(self).block_function,
                self.index_iter.steps_forward() * Self::data_weight() + self.data_iter.steps_forward()
                    <= start,
                chain.len() >= 1,
                chain[0] == old(self).index_inner(),
                chain.last() == self.index_inner(),
                forward_steps(chain),
                old(self).data_iter.spec_valid() ==> *self == *old(self),
            decreases self.index_iter.steps_forward(),
        {
            if !self.index_iter.valid() {
                let ghost before = self.index_iter.steps_forward() * Self::data_weight();
                self.set_data_iterator(None);
                assert(self.index_iter.steps_forward() * Self::data_weight() == before);
                return;
            }
            let ghost i0 = self.index_iter.steps_forward();
            let ghost d0 = self.data_iter.steps_forward();
            self.index_iter.next();
            proof {
                let c0 = chain;
                chain = chain.push(self.index_inner());
                assert forall|i: int| 0 <= i < chain.len() - 1 implies I::next_from(#[trigger] chain[i], chain[i + 1]) by {
                    if i < c0.len() - 1 {
                        assert(chain[i] == c0[i] && chain[i + 1] == c0[i + 1]);
                    }
                }
            }
            self.init_data_block();
            if self.data_iter.iter().is_some() {
                self.data_iter.seek_to_first();
            }
            proof {
                let d1 = self.data_iter.steps_forward();
                if let Some(it) = self.data_iter.inner() {
                    it.lemma_steps_bounded();
                }
                lemma_weighted_below(self.index_iter.steps_forward(), d1, i0, d0, Self::data_weight());
            }
        }
    }

    /// Moves back through the index past blocks with no entry left, opening each and
    /// positioning it at its last entry, until a block iterator is positioned or the
    /// index runs out.
    fn skip_empty_data_blocks_backward(&mut self)
        requires
            old(self).wf(),
        ensures
            final(self).wf(),
            final(self).block_function == old(self).block_function,
            final(self).index_iter.steps_backward() * Self::data_weight() + final(self).data_iter.steps_backward() <= old(self).index_iter.steps_backward() * Self::data_weight()
                + old(self).data_iter.steps_backward(),
            final(self).settled(),
            reached_backward(old(self).index_inner(), final(self).index_inner()),
            old(self).data_iter.spec_valid() ==> *final(self) == *old(self),
    {
        let ghost start = self.index_iter.steps_backward() * Self::data_weight()
            + self.data_iter.steps_backward();
        let ghost mut chain: Seq<I> = seq![self.index_inner()];
        while self.data_iter.iter().is_none() || !self.data_iter.valid()
            invariant
                self.wf(),
                start == old(self).index_iter.steps_backward() * Self::data_weight()
                    + old(self).data_iter.steps_backward(),
                self.block_function == old(self).block_function,
                self.index_iter.steps_backward() * Self::data_weight()
                    + self.data_iter.steps_backward() <= start,
                chain.len() >= 1,
                chain[0] == old(self).index_inner(),
                chain.last() == self.index_inner(),
                backward_steps(chain),
                old(self).data_iter.spec_valid() ==> *self == *old(self),
            decreases self.index_iter.steps_backward(),
        {
            if !self.index_iter.valid() {
                let ghost before = self.index_iter.steps_backward() * Self::data_weight();
                self.set_data_iterator(None);
                assert(self.index_iter.steps_backward() * Self::data_weight() == before);
                return;
            }
            let ghost i0 = self.index_iter.steps_backward();
            let ghost d0 = self.data_iter.steps_backward();
            self.index_iter.prev();
            proof {
                let c0 = chain;
                chain = chain.push(self.index_inner());
                assert forall|i: int| 0 <= i < chain.len() - 1 implies I::prev_from(#[trigger] chain[i], chain[i + 1]) by {
                    if i < c0.len() - 1 {
                        assert(chain[i] == c0[i] && chain[i + 1] == c0[i + 1]);
                    }
                }
            }
            self.init_data_block();
            if self.data_iter.iter().is_some() {
                self.data_iter.seek_to_last();
            }
            proof {
                let d1 = self.data_iter.steps_backward();
                if let Some(it) = self.data_iter.inner() {
                    it.lemma_steps_bounded();
                }
                lemma_weighted_below(self.index_iter.steps_backward(), d1, i0, d0, Self::data_weight());
            }
        }
    }
}

impl<'b, I: DBIterator, B: BlockFunction> DBIterator for TwoLevelIterator<'b, I, B> {
    closed spec fn inv(&self) -> bool {
        self.wf()
    }

    closed spec fn is_valid(&self) -> bool {
        self.data_iter.spec_valid()
    }

    closed spec fn seekable(&self, target: Seq<u8>) -> bool {
        &&& (self.index_iter.inner() matches Some(it) && it.seekable(target))
        &&& (*self.block_function).target_ok(target)
        &&& (self.data_iter.inner() matches Some(it) ==> it.seekable(target))
    }

    closed spec fn steppable(&self) -> bool {
        self.data_iter.spec_valid()
    }

    proof fn lemma_valid_steppable(&self) {
    }

    /// The index iterator moved to its first entry, then on past blocks with no entry.
    closed spec fn first_from(before: Self, after: Self) -> bool {
        &&& after.block_function == before.block_function
        &&& after.settled()
        &&& exists|i: I|
            #[trigger] I::first_from(before.index_inner(), i) && reached_forward(i, after.index_inner())
                && Self::data_after_first(*after.block_function, i, after)
    }

    /// The index iterator moved to its last entry, then back past blocks with no entry.
    closed spec fn last_from(before: Self, after: Self) -> bool {
        &&& after.block_function == before.block_function
        &&& after.settled()
        &&& exists|i: I|
            #[trigger] I::last_from(before.index_inner(), i) && reached_backward(i, after.index_inner())
                && Self::data_after_last(*after.block_function, i, after)
    }

    /// The index iterator moved to `target`'s block, whose iterator was moved to `target`;
    /// if that found an entry the iterator stays there, else it moved on past blocks with
    /// no entry left.
    closed spec fn seek_from(before: Self, after: Self, target: Seq<u8>) -> bool {
        &&& after.block_function == before.block_function
        &&& after.settled()
        &&& exists|i: I|
            #[trigger] I::seek_from(before.index_inner(), i, target) && reached_forward(i, after.index_inner())
                && Self::data_after_seek(*after.block_function, i, target, after)
    }

    /// The block iterator moved one entry on; if that left its block, the index iterator
    /// moved on past blocks with no entry left.
    closed spec fn next_from(before: Self, after: Self) -> bool {
        &&& after.block_function == before.block_function
        &&& after.settled()
        &&& reached_forward(before.index_inner(), after.index_inner())
        &&& before.data_iter.inner() matches Some(d0) ==> (after.index_inner() == before.index_inner()
            && after.data_iter.spec_valid() && (after.data_iter.inner() matches Some(d)
            && B::Iter::next_from(d0, d))) || exists|d: B::Iter| #[trigger] B::Iter::next_from(d0, d) && !d.is_valid()
    }

    /// The block iterator moved one entry back; if that left its block, the index
    /// iterator moved back past blocks with no entry left.
    closed spec fn prev_from(before: Self, after: Self) -> bool {
        &&& after.block_function == before.block_function
        &&& after.settled()
        &&& reached_backward(before.index_inner(), after.index_inner())
        &&& before.data_iter.inner() matches Some(d0) ==> (after.index_inner() == before.index_inner()
            && after.data_iter.spec_valid() && (after.data_iter.inner() matches Some(d)
            && B::Iter::prev_from(d0, d))) || exists|d: B::Iter| #[trigger] B::Iter::prev_from(d0, d) && !d.is_valid()
    }

    /// The remembered key of the data block's iterator; empty when not positioned.
    closed spec fn current_key(&self) -> Seq<u8> {
        if self.data_iter.spec_valid() {
            self.data_iter.spec_key()
        } else {
            Seq::empty()
        }
    }

    /// The index iterator's error, else the data block iterator's status (`Ok` when there
    /// is no data block).
    closed spec fn current_status(&self) -> Result<(), DbError> {
        match self.index_iter.inner() {
            Some(ix) if ix.current_status() is Err => ix.current_status(),
            _ => match self.data_iter.inner() {
                Some(it) => it.current_status(),
                None => Ok(()),
            },
        }
    }

    /// The value at the data block iterator's position; empty when not positioned.
    closed spec fn current_value(&self) -> Seq<u8> {
        if self.data_iter.spec_valid() {
            match self.data_iter.inner() {
                Some(it) => it.current_value(),
                None => Seq::empty(),
            }
        } else {
            Seq::empty()
        }
    }

    closed spec fn steps_forward(&self) -> nat {
        self.index_iter.steps_forward() * Self::data_weight() + self.data_iter.steps_forward()
    }

    closed spec fn steps_backward(&self) -> nat {
        self.index_iter.steps_backward() * Self::data_weight() + self.data_iter.steps_backward()
    }

    closed spec fn steps_bound() -> nat {
        <I as DBIterator>::steps_bound() * Self::data_weight() + <B::Iter as DBIterator>::steps_bound()
    }

    proof fn lemma_steps_bounded(&self) {
        if let Some(it) = self.index_iter.inner() {
            it.lemma_steps_bounded();
        }
        if let Some(it) = self.data_iter.inner() {
            it.lemma_steps_bounded();
        }
        let w = Self::data_weight();
        let ib = <I as DBIterator>::steps_bound();
        assert(self.index_iter.steps_forward() * w <= ib * w) by (nonlinear_arith)
            requires
                self.index_iter.steps_forward() <= ib,
        ;
        assert(self.index_iter.steps_backward() * w <= ib * w) by (nonlinear_arith)
            requires
                self.index_iter.steps_backward() <= ib,
        ;
    }

    fn valid(&self) -> (r: bool) {
        self.data_iter.valid()
    }

    fn seek_to_first(&mut self) {
        self.index_iter.seek_to_first();
        let ghost i = self.index_inner();
        self.init_data_block();
        let ghost mut d0: Option<B::Iter> = None;
        if self.data_iter.iter().is_some() {
            proof {
                d0 = self.data_iter.inner();
            }
            self.data_iter.seek_to_first();
        }
        let ghost mid = *self;
        self.skip_empty_data_blocks_forward();
        proof {
            assert(i == mid.index_inner());
            if mid.data_iter.inner() is None {
                assert(!i.is_valid() || (*self.block_function).opened(i.current_value(), None));
            } else {
                let d = mid.data_iter.inner()->0;
                assert(B::Iter::first_from(d0->0, d));
                if !d.is_valid() {
                    assert(!mid.data_iter.spec_valid());
                } else {
                    assert(*self == mid);
                }
            }
            assert(Self::data_after_first(*self.block_function, i, *self));
        }
        assert(I::first_from(old(self).index_inner(), i) && reached_forward(i, self.index_inner()));
    }

    fn seek_to_last(&mut self) {
        self.index_iter.seek_to_last();
        let ghost i = self.index_inner();
        self.init_data_block();
        let ghost mut d0: Option<B::Iter> = None;
        if self.data_iter.iter().is_some() {
            proof {
                d0 = self.data_iter.inner();
            }
            self.data_iter.seek_to_last();
        }
        let ghost mid = *self;
        self.skip_empty_data_blocks_backward();
        proof {
            assert(i == mid.index_inner());
            if mid.data_iter.inner() is None {
                assert(!i.is_valid() || (*self.block_function).opened(i.current_value(), None));
            } else {
                let d = mid.data_iter.inner()->0;
                assert(B::Iter::last_from(d0->0, d));
                if !d.is_valid() {
                    assert(!mid.data_iter.spec_valid());
                } else {
                    assert(*self == mid);
                }
            }
            assert(Self::data_after_last(*self.block_function, i, *self));
        }
        assert(I::last_from(old(self).index_inner(), i) && reached_backward(i, self.index_inner()));
    }

    fn seek(&mut self, target: &[u8]) {
        self.index_iter.seek(target);
        let ghost i = self.index_inner();
        self.init_data_block();
        let ghost mut d0: Option<B::Iter> = None;
        if self.data_iter.iter().is_some() {
            proof {
                d0 = self.data_iter.inner();
            }
            self.data_iter.seek(target);
        }
        let ghost mid = *self;
        self.skip_empty_data_blocks_forward();
        proof {
            assert(i == mid.index_inner());
            if mid.data_iter.inner() is None {
                assert(!i.is_valid() || (*self.block_function).opened(i.current_value(), None));
            } else {
                let d = mid.data_iter.inner()->0;
                assert(B::Iter::seek_from(d0->0, d, target@));
                if !d.is_valid() {
                    assert(!mid.data_iter.spec_valid());
                } else {
                    assert(*self == mid);
                }
            }
            assert(Self::data_after_seek(*self.block_function, i, target@, *self));
        }
        assert(I::seek_from(old(self).index_inner(), i, target@) && reached_forward(i, self.index_inner()));
    }

    fn next(&mut self) {
        let ghost d0 = self.data_iter.inner()->0;
        self.data_iter.next();
        let ghost mid = *self;
        self.skip_empty_data_blocks_forward();
        proof {
            let d = mid.data_iter.inner()->0;
            assert(B::Iter::next_from(d0, d));
            if mid.data_iter.spec_valid() {
                assert(*self == mid);
            }
        }
    }

    fn prev(&mut self) {
        let ghost d0 = self.data_iter.inner()->0;
        self.data_iter.prev();
        let ghost mid = *self;
        self.skip_empty_data_blocks_backward();
        proof {
            let d = mid.data_iter.inner()->0;
            assert(B::Iter::prev_from(d0, d));
            if mid.data_iter.spec_valid() {
                assert(*self == mid);
            }
        }
    }

    /// The current key; empty when the iterator is not positioned.
    fn key(&self) -> (r: &[u8]) {
        if self.data_iter.valid() {
            self.data_iter.key()
        } else {
            &[]
        }
    }

    /// The current value; empty when the iterator is not positioned.
    fn value(&self) -> (r: &[u8]) {
        if self.data_iter.valid() {
            self.data_iter.value()
        } else {
            &[]
        }
    }

    fn status(&self) -> (r: Result<(), DbError>) {
        match self.index_iter.status() {
            Err(e) => Err(e),
            Ok(()) => match self.data_iter.iter() {
                Some(it) => it.status(),
                None => Ok(()),
            },
        }
    }
}

/// An iterator over the blocks that `index_iter` lists, opened by `block_function`.
pub fn new_two_level_iterator<'b, I: DBIterator, B: BlockFunction>(
    index_iter: I,
    block_function: &'b B,
    options: ReadOptions,
) -> (r: TwoLevelIterator<'b, I, B>)
    requires
        index_iter.inv(),
        !options.verify_checksums,
    ensures
        r.inv(),
        r.index_wrapper().inner() == Some(index_iter),
        r.data_wrapper().inner() is None,
        r.spec_block_function() == *block_function,
{
    TwoLevelIterator::new(index_iter, block_function, options)
}

} // verus!
