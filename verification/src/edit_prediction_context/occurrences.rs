//! How often hashes occur.
use std::collections::HashMap;
use vstd::multiset::Multiset;
use vstd::prelude::*;
use vstd::std_specs::hash::*;

verus! {

broadcast use {
    vstd::std_specs::hash::group_hash_axioms,
    vstd::multiset::group_multiset_axioms,
};

/// A multiset of hashes.
pub struct Occurrences {
    pub table: HashMap<u32, u32>,
    pub total: u32,
    pub contents: Ghost<Multiset<u32>>,
}

impl View for Occurrences {
    type V = Multiset<u32>;

    open spec fn view(&self) -> Multiset<u32> {
        self.contents@
    }
}

impl Occurrences {
    /// The table holds the counts of exactly the hashes that occur, and the
    /// total is the number of occurrences.
    pub open spec fn inv(&self) -> bool {
        &&& self.total == self@.len()
        &&& forall|hash: u32|
            #![trigger self@.count(hash)]
            self@.count(hash) == if self.table@.contains_key(hash) {
                self.table@[hash] as nat
            } else {
                0
            }
    }

    /// No hashes.
    pub fn empty() -> (r: Self)
        ensures
            r.inv(),
            r@ == Multiset::<u32>::empty(),
    {
        Occurrences { table: HashMap::new(), total: 0, contents: Ghost(Multiset::empty()) }
    }

    /// The given hashes.
    pub fn new(hashes: Vec<u32>) -> (r: Self)
        requires
            hashes@.len() <= u32::MAX,
        ensures
            r.inv(),
            r@ == hashes@.to_multiset(),
    {
        broadcast use vstd::seq_lib::group_to_multiset_ensures;

        let mut r = Self::empty();
        let mut i: usize = 0;
        assert(hashes@.take(0).to_multiset() =~= Multiset::<u32>::empty());
        while i < hashes.len()
            invariant
                i <= hashes@.len() <= u32::MAX,
                r.inv(),
                r@ == hashes@.take(i as int).to_multiset(),
                r@.len() == i,
            decreases hashes@.len() - i,
        {
            assert(hashes@.take(i + 1) =~= hashes@.take(i as int).push(hashes@[i as int]));
            proof {
                hashes@.take(i as int).to_multiset_ensures();
            }
            r.add_hash(hashes[i]);
            i = i + 1;
        }
        assert(hashes@.take(i as int) =~= hashes@);
        r
    }

    /// The number of occurrences of all hashes.
    pub fn len(&self) -> (n: u32)
        requires
            self.inv(),
        ensures
            n == self@.len(),
    {
        self.total
    }

    /// The number of occurrences of a hash.
    pub fn get_count(&self, hash: u32) -> (n: u32)
        requires
            self.inv(),
        ensures
            n == self@.count(hash),
    {
        match self.table.get(&hash) {
            Some(n) => *n,
            None => 0,
        }
    }

    /// Adds an occurrence of a hash and returns how often it occurs now.
    pub fn add_hash(&mut self, hash: u32) -> (n: u32)
        requires
            old(self).inv(),
            old(self)@.len() < u32::MAX,
        ensures
            final(self).inv(),
            final(self)@ == old(self)@.insert(hash),
            n == final(self)@.count(hash),
    {
        proof {
            vstd::multiset::axiom_count_le_len(self@, hash);
        }
        let n: u32 = self.get_count(hash) + 1;
        self.table.insert(hash, n);
        self.total = self.total + 1;
        self.contents = Ghost(self.contents@.insert(hash));
        assert forall|other: u32| #![trigger self@.count(other)] self@.count(other)
            == if self.table@.contains_key(other) {
            self.table@[other] as nat
        } else {
            0
        } by {}
        n
    }

    /// Removes an occurrence of a hash and returns how often it occurs now.
    pub fn remove_hash(&mut self, hash: u32) -> (n: u32)
        requires
            old(self).inv(),
            old(self)@.count(hash) > 0,
        ensures
            final(self).inv(),
            final(self)@ == old(self)@.remove(hash),
            n == final(self)@.count(hash),
            n == old(self)@.count(hash) - 1,
    {
        proof {
            vstd::multiset::axiom_count_le_len(self@, hash);
        }
        let n: u32 = self.get_count(hash) - 1;
        self.table.insert(hash, n);
        self.total = self.total - 1;
        self.contents = Ghost(self.contents@.remove(hash));
        assert forall|other: u32| #![trigger self@.count(other)] self@.count(other)
            == if self.table@.contains_key(other) {
            self.table@[other] as nat
        } else {
            0
        } by {}
        n
    }

    /// Removes all hashes.
    pub fn clear(&mut self)
        ensures
            final(self).inv(),
            final(self)@ == Multiset::<u32>::empty(),
    {
        self.table.clear();
        self.total = 0;
        self.contents = Ghost(Multiset::empty());
    }
}

} // verus!
