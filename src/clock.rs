//! A hybrid logical clock bundled with the merkle trie of the timestamps it
//! has seen.

use vstd::prelude::*;

use crate::merkle::MerkleTrie;
use crate::timestamp::{Timestamp, TimestampView};

verus! {

pub struct MerkleClock<const BASE: usize> {
    timer: Timestamp,
    merkle: MerkleTrie<BASE>,
}

impl<const BASE: usize> MerkleClock<BASE> {
    pub closed spec fn timer_view(&self) -> TimestampView {
        self.timer@
    }

    pub closed spec fn trie(&self) -> MerkleTrie<BASE> {
        self.merkle
    }

    pub fn new(timer: Timestamp, merkle: MerkleTrie<BASE>) -> (r: Self)
        ensures
            r.timer_view() == timer@,
            r.trie() == merkle,
    {
        MerkleClock { timer, merkle }
    }

    pub fn timer(&self) -> (r: &Timestamp)
        ensures
            r@ == self.timer_view(),
    {
        &self.timer
    }

    /// The clock's time, for the caller to advance; the trie is untouched.
    pub fn timer_mut(&mut self) -> (r: &mut Timestamp)
        ensures
            r@ == old(self).timer_view(),
            final(self).timer_view() == final(r)@,
            final(self).trie() == old(self).trie(),
    {
        &mut self.timer
    }

    pub fn merkle(&self) -> (r: &MerkleTrie<BASE>)
        ensures
            *r == self.trie(),
    {
        &self.merkle
    }

    /// The clock's trie, for the caller to insert into; the time is untouched.
    pub fn merkle_mut(&mut self) -> (r: &mut MerkleTrie<BASE>)
        ensures
            *r == old(self).trie(),
            final(self).trie() == *final(r),
            final(self).timer_view() == old(self).timer_view(),
    {
        &mut self.merkle
    }
}

} // verus!
