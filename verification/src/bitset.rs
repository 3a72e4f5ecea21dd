//! What the solver asks of a set of small non-negative integers, and a
//! set that keeps its members in an ordered tree.

use crate::fixed_bitset::{
    ascending_listing, below, lemma_below_finite, lemma_count_done, lemma_count_step,
    lemma_listing_done, lemma_listing_push, lemma_listing_skip, within, BitSet, BlockStorage,
};
use std::collections::BTreeSet;
use vstd::prelude::*;

verus! {

/// A set of small non-negative integers.
///
/// Every member lies below the capacity; the capacity itself says no
/// more than that.
pub trait BitSetT: Sized + View<V = Set<nat>> {
    /// The invariant of the set.
    spec fn wf(&self) -> bool;

    /// The bound below which every member lies.
    spec fn cap(&self) -> nat;

    /// The set is finite and every member lies below the capacity.
    proof fn lemma_bounded(&self)
        requires
            self.wf(),
        ensures
            self@.finite(),
            forall|i: nat| self@.contains(i) ==> i < self.cap(),
            self.cap() <= usize::MAX,
    ;

    /// An empty set.
    fn create() -> (r: Self)
        ensures
            r.wf(),
            r@ == Set::<nat>::empty(),
    ;

    /// Makes room for `bits` bits where the set keeps room; the members
    /// stay and the bound below which they lie never shrinks.
    fn grow(&mut self, bits: usize)
        requires
            old(self).wf(),
            bits + 63 <= usize::MAX,
        ensures
            final(self).wf(),
            final(self)@ == old(self)@,
            final(self).cap() >= old(self).cap(),
    ;

    /// A bound below which every member lies.
    fn capacity(&self) -> (r: usize)
        requires
            self.wf(),
        ensures
            r == self.cap(),
    ;

    /// Removes every member.
    fn clear_all(&mut self)
        requires
            old(self).wf(),
        ensures
            final(self).wf(),
            final(self)@ == Set::<nat>::empty(),
    ;

    /// Adds `bit`.
    fn set(&mut self, bit: usize)
        requires
            old(self).wf(),
            bit + 64 <= usize::MAX,
        ensures
            final(self).wf(),
            final(self)@ == old(self)@.insert(bit as nat),
    ;

    /// Adds every number from `start_bit_incl` up to, but not including,
    /// `end_bit_excl`.
    fn set_between(&mut self, start_bit_incl: usize, end_bit_excl: usize)
        requires
            old(self).wf(),
            start_bit_incl < end_bit_excl ==> end_bit_excl + 63 <= usize::MAX,
        ensures
            final(self).wf(),
            final(self)@ == old(self)@.union(
                Set::new(|i: nat| start_bit_incl <= i < end_bit_excl),
            ),
    ;

    /// Removes `bit`.
    fn clear(&mut self, bit: usize)
        requires
            old(self).wf(),
        ensures
            final(self).wf(),
            final(self)@ == old(self)@.remove(bit as nat),
    ;

    /// Takes the smallest member out and returns it, if there is one.
    fn pop_first_set(&mut self) -> (r: Option<usize>)
        requires
            old(self).wf(),
        ensures
            final(self).wf(),
            match r {
                Some(i) => old(self)@.contains(i as nat) && (forall|j: nat|
                    j < i ==> !old(self)@.contains(j)) && final(self)@ == old(self)@.remove(
                    i as nat,
                ),
                None => old(self)@ == Set::<nat>::empty() && final(self)@ == old(self)@,
            },
    {
        match self.first_set() {
            Some(i) => {
                self.clear(i);
                Some(i)
            },
            None => None,
        }
    }

    /// Whether `bit` is a member.
    fn contains(&self, bit: usize) -> (r: bool)
        ensures
            r == self@.contains(bit as nat),
    ;

    /// The smallest member, if there is one.
    fn first_set(&self) -> (r: Option<usize>)
        requires
            self.wf(),
        ensures
            match r {
                Some(i) => self@.contains(i as nat) && forall|j: nat| j < i ==> !self@.contains(j),
                None => self@ == Set::<nat>::empty(),
            },
    ;

    /// The smallest number that is no member; there is none only where
    /// every number that can be counted is a member.
    fn first_unset(&self) -> (r: Option<usize>)
        requires
            self.wf(),
        ensures
            match r {
                Some(i) => !self@.contains(i as nat) && forall|j: nat| j < i ==> self@.contains(j),
                None => forall|j: nat| j <= usize::MAX ==> self@.contains(j),
            },
    ;

    /// The smallest member at or above `bit`, if there is one.
    fn first_set_ge(&self, bit: usize) -> (r: Option<usize>)
        requires
            self.wf(),
        ensures
            match r {
                Some(i) => i >= bit && self@.contains(i as nat) && forall|j: nat|
                    bit <= j < i ==> !self@.contains(j),
                None => forall|j: nat| bit <= j ==> !self@.contains(j),
            },
    ;

    /// The smallest number at or above `bit` that is no member; there is
    /// none only where every number from `bit` on that can be counted is
    /// a member.
    fn first_unset_ge(&self, bit: usize) -> (r: Option<usize>)
        requires
            self.wf(),
        ensures
            match r {
                Some(i) => bit <= i && !self@.contains(i as nat) && forall|j: nat|
                    bit <= j < i ==> self@.contains(j),
                None => forall|j: nat| bit <= j <= usize::MAX ==> self@.contains(j),
            },
    ;

    /// Adds every member of `other`.
    fn union_with(&mut self, other: &Self)
        requires
            old(self).wf(),
            other.wf(),
        ensures
            final(self).wf(),
            final(self)@ == old(self)@.union(other@),
    ;

    /// Keeps only the members that `other` has too.
    fn intersect_with(&mut self, other: &Self)
        requires
            old(self).wf(),
            other.wf(),
        ensures
            final(self).wf(),
            final(self)@ == old(self)@.intersect(other@),
    ;

    /// Removes every member of `other`.
    fn difference_with(&mut self, other: &Self)
        requires
            old(self).wf(),
            other.wf(),
        ensures
            final(self).wf(),
            final(self)@ == old(self)@.difference(other@),
    ;

    /// Makes the set the intersection of `a` and `b`.
    fn intersect(&mut self, a: &Self, b: &Self)
        requires
            old(self).wf(),
            a.wf(),
            b.wf(),
        ensures
            final(self).wf(),
            final(self)@ == a@.intersect(b@),
    ;

    /// The member with exactly `n` smaller members, if the set has more
    /// than `n` members.
    fn nth(&self, n: usize) -> (r: Option<usize>)
        requires
            self.wf(),
        ensures
            match r {
                Some(i) => self@.contains(i as nat) && within(self@, 0, i as nat).len() == n,
                None => self@.len() <= n,
            },
    ;

    /// The number of members.
    fn count(&self) -> (r: usize)
        requires
            self.wf(),
        ensures
            r == self@.len(),
    ;

    /// The members in ascending order.
    fn iter(&self) -> (r: Vec<usize>)
        requires
            self.wf(),
        ensures
            ascending_listing(r@, self@),
    {
        let mut out: Vec<usize> = Vec::new();
        let mut cursor: usize = 0;
        proof {
            self.lemma_bounded();
            assert(within(self@, 0, 0) =~= Set::<nat>::empty());
        }
        loop
            invariant
                self.wf(),
                cursor <= self.cap(),
                self.cap() <= usize::MAX,
                forall|i: nat| self@.contains(i) ==> i < self.cap(),
                ascending_listing(out@, within(self@, 0, cursor as nat)),
            decreases self.cap() - cursor,
        {
            match self.first_set_ge(cursor) {
                None => {
                    proof {
                        lemma_listing_done(out@, self@, 0, cursor as nat);
                        assert(self@.filter(|j: nat| 0 <= j) =~= self@);
                    }
                    return out;
                },
                Some(i) => {
                    proof {
                        lemma_listing_push(out@, self@, 0, cursor as nat, i);
                    }
                    out.push(i);
                    cursor = i + 1;
                },
            }
        }
    }

    /// The smallest common member of `self` and `other` at or above
    /// `ge`, if there is one.
    fn intersect_first_set_ge(&self, other: &Self, ge: usize) -> (r: Option<usize>)
        requires
            self.wf(),
            other.wf(),
        ensures
            match r {
                Some(i) => i >= ge && self@.contains(i as nat) && other@.contains(i as nat)
                    && forall|j: nat|
                    ge <= j < i ==> !(self@.contains(j) && other@.contains(j)),
                None => forall|j: nat| ge <= j ==> !(self@.contains(j) && other@.contains(j)),
            },
    {
        let mut from: usize = ge;
        proof {
            self.lemma_bounded();
        }
        loop
            invariant
                self.wf(),
                other.wf(),
                ge <= from,
                self.cap() <= usize::MAX,
                forall|i: nat| self@.contains(i) ==> i < self.cap(),
                forall|j: nat| ge <= j < from ==> !(self@.contains(j) && other@.contains(j)),
            decreases usize::MAX - from,
        {
            match (self.first_set_ge(from), other.first_set_ge(from)) {
                (Some(a), Some(b)) => {
                    if a == b {
                        return Some(a);
                    } else if a < b {
                        from = b;
                    } else {
                        from = a;
                    }
                },
                _ => {
                    return None;
                },
            }
        }
    }

    /// The smallest common member of `self` and `other`, if there is
    /// one.
    fn intersect_first_set(&self, other: &Self) -> (r: Option<usize>)
        requires
            self.wf(),
            other.wf(),
        ensures
            match r {
                Some(i) => self@.contains(i as nat) && other@.contains(i as nat) && forall|j: nat|
                    j < i ==> !(self@.contains(j) && other@.contains(j)),
                None => forall|j: nat| !(self@.contains(j) && other@.contains(j)),
            },
    {
        self.intersect_first_set_ge(other, 0)
    }

    /// Whether the set has no member.
    fn is_empty(&self) -> (r: bool)
        requires
            self.wf(),
        ensures
            r == (self@ == Set::<nat>::empty()),
    {
        let r = self.first_set();
        proof {
            if r.is_some() {
                assert(self@.contains(r.unwrap() as nat));
            }
        }
        r.is_none()
    }

    /// The members of `self` or `other` in ascending order.
    fn iter_union(&self, other: &Self) -> (r: Vec<usize>)
        requires
            self.wf(),
            other.wf(),
        ensures
            ascending_listing(r@, self@.union(other@)),
    {
        let mut out: Vec<usize> = Vec::new();
        let mut cursor: usize = 0;
        let ghost s = self@.union(other@);
        proof {
            self.lemma_bounded();
            other.lemma_bounded();
            assert(within(s, 0, 0) =~= Set::<nat>::empty());
        }
        loop
            invariant
                self.wf(),
                other.wf(),
                s == self@.union(other@),
                self.cap() <= usize::MAX,
                other.cap() <= usize::MAX,
                forall|i: nat| self@.contains(i) ==> i < self.cap(),
                forall|i: nat| other@.contains(i) ==> i < other.cap(),
                cursor <= self.cap() || cursor <= other.cap(),
                ascending_listing(out@, within(s, 0, cursor as nat)),
            decreases self.cap() + other.cap() - cursor,
        {
            let a = self.first_set_ge(cursor);
            let b = other.first_set_ge(cursor);
            let next: Option<usize> = match (a, b) {
                (Some(x), Some(y)) => if x < y {
                    Some(x)
                } else {
                    Some(y)
                },
                (Some(x), None) => Some(x),
                (None, Some(y)) => Some(y),
                (None, None) => None,
            };
            match next {
                None => {
                    proof {
                        lemma_listing_done(out@, s, 0, cursor as nat);
                        assert(s.filter(|j: nat| 0 <= j) =~= s);
                    }
                    return out;
                },
                Some(i) => {
                    proof {
                        lemma_listing_push(out@, s, 0, cursor as nat, i);
                    }
                    out.push(i);
                    cursor = i + 1;
                },
            }
        }
    }

    /// The common members of `self` and `other` in ascending order.
    fn iter_intersection(&self, other: &Self) -> (r: Vec<usize>)
        requires
            self.wf(),
            other.wf(),
        ensures
            ascending_listing(r@, self@.intersect(other@)),
    {
        let mut out: Vec<usize> = Vec::new();
        let mut cursor: usize = 0;
        let ghost s = self@.intersect(other@);
        proof {
            self.lemma_bounded();
            assert(within(s, 0, 0) =~= Set::<nat>::empty());
        }
        loop
            invariant
                self.wf(),
                other.wf(),
                s == self@.intersect(other@),
                self.cap() <= usize::MAX,
                forall|i: nat| self@.contains(i) ==> i < self.cap(),
                cursor <= self.cap(),
                ascending_listing(out@, within(s, 0, cursor as nat)),
            decreases self.cap() - cursor,
        {
            match self.first_set_ge(cursor) {
                None => {
                    proof {
                        lemma_listing_done(out@, s, 0, cursor as nat);
                        assert(s.filter(|j: nat| 0 <= j) =~= s);
                    }
                    return out;
                },
                Some(i) => {
                    if other.contains(i) {
                        proof {
                            lemma_listing_push(out@, s, 0, cursor as nat, i);
                        }
                        out.push(i);
                    } else {
                        proof {
                            lemma_listing_skip(out@, s, 0, cursor as nat, (i + 1) as nat);
                        }
                    }
                    cursor = i + 1;
                },
            }
        }
    }

    /// The members of `self` that `other` lacks, in ascending order.
    fn iter_difference(&self, other: &Self) -> (r: Vec<usize>)
        requires
            self.wf(),
            other.wf(),
        ensures
            ascending_listing(r@, self@.difference(other@)),
    {
        let mut out: Vec<usize> = Vec::new();
        let mut cursor: usize = 0;
        let ghost s = self@.difference(other@);
        proof {
            self.lemma_bounded();
            assert(within(s, 0, 0) =~= Set::<nat>::empty());
        }
        loop
            invariant
                self.wf(),
                other.wf(),
                s == self@.difference(other@),
                self.cap() <= usize::MAX,
                forall|i: nat| self@.contains(i) ==> i < self.cap(),
                cursor <= self.cap(),
                ascending_listing(out@, within(s, 0, cursor as nat)),
            decreases self.cap() - cursor,
        {
            match self.first_set_ge(cursor) {
                None => {
                    proof {
                        lemma_listing_done(out@, s, 0, cursor as nat);
                        assert(s.filter(|j: nat| 0 <= j) =~= s);
                    }
                    return out;
                },
                Some(i) => {
                    if !other.contains(i) {
                        proof {
                            lemma_listing_push(out@, s, 0, cursor as nat, i);
                        }
                        out.push(i);
                    } else {
                        proof {
                            lemma_listing_skip(out@, s, 0, cursor as nat, (i + 1) as nat);
                        }
                    }
                    cursor = i + 1;
                },
            }
        }
    }
}

impl<S: BlockStorage> BitSetT for BitSet<S> {
    open spec fn wf(&self) -> bool {
        BitSet::wf(self)
    }

    open spec fn cap(&self) -> nat {
        BitSet::cap(self)
    }

    proof fn lemma_bounded(&self) {
        self.lemma_view();
        self.lemma_cap();
    }

    fn create() -> (r: Self) {
        BitSet::new(0)
    }

    fn grow(&mut self, bits: usize)
        ensures
            final(self).cap() == if old(self).cap() >= 64 * BitSet::<S>::words_for(bits as nat) {
                old(self).cap()
            } else {
                64 * BitSet::<S>::words_for(bits as nat)
            },
            final(self).cap() >= bits,
    {
        BitSet::grow(self, bits)
    }

    fn capacity(&self) -> (r: usize) {
        BitSet::capacity(self)
    }

    fn clear_all(&mut self) {
        BitSet::clear_all(self)
    }

    fn set(&mut self, bit: usize) {
        BitSet::set(self, bit)
    }

    fn set_between(&mut self, start_bit_incl: usize, end_bit_excl: usize) {
        BitSet::set_between(self, start_bit_incl, end_bit_excl)
    }

    fn clear(&mut self, bit: usize) {
        BitSet::clear(self, bit)
    }

    fn contains(&self, bit: usize) -> (r: bool) {
        BitSet::contains(self, bit)
    }

    fn first_set(&self) -> (r: Option<usize>) {
        BitSet::first_set(self)
    }

    fn first_unset(&self) -> (r: Option<usize>) {
        BitSet::first_unset(self)
    }

    fn first_set_ge(&self, bit: usize) -> (r: Option<usize>) {
        BitSet::first_set_ge(self, bit)
    }

    fn first_unset_ge(&self, bit: usize) -> (r: Option<usize>) {
        BitSet::first_unset_ge(self, bit)
    }

    fn union_with(&mut self, other: &Self) {
        BitSet::union_with(self, other)
    }

    fn intersect_with(&mut self, other: &Self) {
        BitSet::intersect_with(self, other)
    }

    fn difference_with(&mut self, other: &Self) {
        BitSet::difference_with(self, other)
    }

    fn intersect(&mut self, a: &Self, b: &Self) {
        BitSet::intersect(self, a, b)
    }

    fn nth(&self, n: usize) -> (r: Option<usize>) {
        let r = BitSet::nth(self, n);
        proof {
            if r is Some {
                assert(within(self@, 0, r.unwrap() as nat) =~= self.below_in(r.unwrap() as nat));
            }
        }
        r
    }

    fn count(&self) -> (r: usize) {
        BitSet::count(self)
    }

    fn iter(&self) -> (r: Vec<usize>) {
        BitSet::iter(self)
    }

    fn intersect_first_set_ge(&self, other: &Self, ge: usize) -> (r: Option<usize>) {
        BitSet::intersect_first_set_ge(self, other, ge)
    }

    fn intersect_first_set(&self, other: &Self) -> (r: Option<usize>) {
        BitSet::intersect_first_set(self, other)
    }

    fn is_empty(&self) -> (r: bool) {
        BitSet::is_empty(self)
    }

    fn iter_union(&self, other: &Self) -> (r: Vec<usize>) {
        BitSet::iter_union(self, other)
    }

    fn iter_intersection(&self, other: &Self) -> (r: Vec<usize>) {
        BitSet::iter_intersection(self, other)
    }

    fn iter_difference(&self, other: &Self) -> (r: Vec<usize>) {
        BitSet::iter_difference(self, other)
    }
}

/// The numbers among the first `k` of `items`.
pub open spec fn listed(items: Seq<usize>, k: int) -> Set<nat> {
    Set::new(|x: nat| exists|j: int| 0 <= j < k && #[trigger] items[j] == x)
}

/// None of the items is among the first none of them.
pub proof fn lemma_listed_none(items: Seq<usize>)
    ensures
        listed(items, 0) == Set::<nat>::empty(),
{
    assert(listed(items, 0) =~= Set::<nat>::empty());
}

/// One more item is listed with one more item counted.
pub proof fn lemma_listed_step(items: Seq<usize>, k: int)
    requires
        0 <= k < items.len(),
    ensures
        listed(items, k + 1) == listed(items, k).insert(items[k] as nat),
{
    assert forall|x: nat| listed(items, k + 1).contains(x) == listed(items, k).insert(
        items[k] as nat,
    ).contains(x) by {
        if listed(items, k + 1).contains(x) {
            let j = choose|j: int| 0 <= j < k + 1 && #[trigger] items[j] == x;
            if j < k {
                assert(listed(items, k).contains(x));
            }
        }
        if listed(items, k).contains(x) {
            let j = choose|j: int| 0 <= j < k && #[trigger] items[j] == x;
            assert(items[j] == x);
        }
        if x == items[k] {
            assert(items[k] == x);
        }
    }
    assert(listed(items, k + 1) =~= listed(items, k).insert(items[k] as nat));
}

/// A listing of a set lists exactly its members.
pub proof fn lemma_listed_all(items: Seq<usize>, s: Set<nat>)
    requires
        ascending_listing(items, s),
    ensures
        listed(items, items.len() as int) == s,
{
    assert forall|x: nat| listed(items, items.len() as int).contains(x) == s.contains(x) by {
        if listed(items, items.len() as int).contains(x) {
            let j = choose|j: int| 0 <= j < items.len() && #[trigger] items[j] == x;
            assert(s.contains(items[j] as nat));
        }
        if s.contains(x) {
            let j = choose|j: int| 0 <= j < items.len() && #[trigger] items[j] == x;
            assert(items[j] == x);
        }
    }
    assert(listed(items, items.len() as int) =~= s);
}

/// Calls `BTreeSet::last` of the standard library. The claim is what its
/// documentation says: the element that comes back is the largest of the
/// set, and none comes back from an empty set.
#[verifier::external_body]
fn largest(set: &BTreeSet<usize>) -> (r: Option<usize>)
    ensures
        match r {
            Some(m) => set@.contains(m) && forall|x: usize| set@.contains(x) ==> x <= m,
            None => set@ == Set::<usize>::empty(),
        },
{
    set.last().copied()
}

/// Calls `BTreeSet::range` of the standard library on the numbers from
/// `from` on and takes the first element of the range. The claim is
/// that the set's order is that of its numbers: what comes back is the
/// smallest element at or above `from`, and nothing comes back where
/// there is none.
#[verifier::external_body]
fn smallest_from(set: &BTreeSet<usize>, from: usize) -> (r: Option<usize>)
    ensures
        match r {
            Some(m) => m >= from && set@.contains(m) && forall|x: usize|
                set@.contains(x) && x >= from ==> m <= x,
            None => forall|x: usize| set@.contains(x) ==> x < from,
        },
{
    set.range(from..).next().copied()
}

/// A set of small non-negative integers kept in an ordered tree.
#[derive(Clone, Debug)]
pub struct BTreeBitSet {
    set: BTreeSet<usize>,
}

impl View for BTreeBitSet {
    type V = Set<nat>;

    closed spec fn view(&self) -> Set<nat> {
        Set::new(|i: nat| i <= usize::MAX && self.set@.contains(i as usize))
    }
}

impl BTreeBitSet {
    /// The largest member and one, or zero for an empty set.
    fn max_elem_plus_one(&self) -> (r: usize)
        requires
            BitSetT::wf(self),
        ensures
            r == BitSetT::cap(self),
    {
        match largest(&self.set) {
            Some(m) => {
                proof {
                    assert(self@.contains(m as nat));
                    assert forall|i: nat| self@.contains(i) implies i <= m by {}
                    self.lemma_top(m as nat);
                }
                m + 1
            },
            None => {
                proof {
                    assert(self@ =~= Set::<nat>::empty());
                }
                0
            },
        }
    }

    /// The largest member of a set that has members is the one that no
    /// member exceeds.
    proof fn lemma_top(&self, m: nat)
        requires
            self@.contains(m),
            forall|i: nat| self@.contains(i) ==> i <= m,
        ensures
            BitSetT::cap(self) == m + 1,
    {
        let top = choose|t: nat| self@.contains(t) && forall|i: nat| self@.contains(i) ==> i <= t;
        assert(self@.contains(top) && forall|i: nat| self@.contains(i) ==> i <= top);
        assert(top <= m && m <= top);
    }

    /// The members in ascending order.
    pub fn iter(&self) -> (r: Vec<usize>)
        requires
            BitSetT::wf(self),
        ensures
            ascending_listing(r@, self@),
    {
        BitSetT::iter(self)
    }

    /// The members of `self` or `other` in ascending order.
    pub fn iter_union(&self, other: &Self) -> (r: Vec<usize>)
        requires
            BitSetT::wf(self),
            BitSetT::wf(other),
        ensures
            ascending_listing(r@, self@.union(other@)),
    {
        BitSetT::iter_union(self, other)
    }

    /// The common members of `self` and `other` in ascending order.
    pub fn iter_intersection(&self, other: &Self) -> (r: Vec<usize>)
        requires
            BitSetT::wf(self),
            BitSetT::wf(other),
        ensures
            ascending_listing(r@, self@.intersect(other@)),
    {
        BitSetT::iter_intersection(self, other)
    }

    /// The members of `self` that `other` lacks, in ascending order.
    pub fn iter_difference(&self, other: &Self) -> (r: Vec<usize>)
        requires
            BitSetT::wf(self),
            BitSetT::wf(other),
        ensures
            ascending_listing(r@, self@.difference(other@)),
    {
        BitSetT::iter_difference(self, other)
    }
}

impl BitSetT for BTreeBitSet {
    closed spec fn wf(&self) -> bool {
        &&& self.set@.finite()
        &&& forall|x: usize| self.set@.contains(x) ==> x < usize::MAX
    }

    closed spec fn cap(&self) -> nat {
        if self@ == Set::<nat>::empty() {
            0
        } else {
            (choose|t: nat| self@.contains(t) && forall|i: nat| self@.contains(i) ==> i <= t) + 1
        }
    }

    proof fn lemma_bounded(&self) {
        if self@ == Set::<nat>::empty() {
        } else {
            let some = choose|i: nat| self@.contains(i);
            assert(self@.contains(some)) by {
                if forall|i: nat| !self@.contains(i) {
                    assert(self@ =~= Set::<nat>::empty());
                }
            }
            assert(self.set@.contains(some as usize));
            let leq = |a: usize, b: usize| a <= b;
            assert(vstd::relations::total_ordering(leq));
            assert(self.set@.len() > 0) by {
                if self.set@.len() == 0 {
                    assert(self.set@ =~= Set::<usize>::empty());
                }
            }
            let big = self.set@.find_unique_maximal(leq);
            self.set@.find_unique_maximal_ensures(leq);
            assert(vstd::relations::is_maximal(leq, big, self.set@));
            assert(self@.contains(big as nat));
            assert forall|i: nat| self@.contains(i) implies i <= big by {
                let x = i as usize;
                assert(self.set@.contains(x));
                assert(leq(big, x) || leq(x, big));
                if leq(big, x) {
                    assert(leq(x, big));
                }
            }
            self.lemma_top(big as nat);
        }
        let c = self.cap();
        lemma_below_finite(c);
        assert(self@.subset_of(below(c)));
        vstd::set_lib::lemma_len_subset(self@, below(c));
    }

    fn create() -> (r: Self) {
        let r = BTreeBitSet { set: BTreeSet::new() };
        proof {
            assert(r@ =~= Set::<nat>::empty());
        }
        r
    }

    fn grow(&mut self, _bits: usize) {
    }

    fn capacity(&self) -> (r: usize) {
        self.max_elem_plus_one()
    }

    fn clear_all(&mut self) {
        self.set.clear();
        proof {
            assert(self@ =~= Set::<nat>::empty());
        }
    }

    fn set(&mut self, bit: usize) {
        self.set.insert(bit);
        proof {
            assert(self@ =~= old(self)@.insert(bit as nat));
        }
    }

    fn set_between(&mut self, start_bit_incl: usize, end_bit_excl: usize) {
        if start_bit_incl >= end_bit_excl {
            proof {
                assert(self@ =~= old(self)@.union(
                    Set::new(|i: nat| start_bit_incl <= i < end_bit_excl),
                ));
            }
            return ;
        }
        let mut i: usize = start_bit_incl;
        proof {
            assert(self@ =~= old(self)@.union(Set::new(|j: nat| start_bit_incl <= j < i)));
        }
        while i < end_bit_excl
            invariant
                start_bit_incl <= i <= end_bit_excl,
                end_bit_excl + 63 <= usize::MAX,
                self.wf(),
                self@ == old(self)@.union(Set::new(|j: nat| start_bit_incl <= j < i)),
            decreases end_bit_excl - i,
        {
            let ghost before = self@;
            self.set.insert(i);
            i = i + 1;
            proof {
                assert(self@ =~= before.insert((i - 1) as nat));
                assert(self@ =~= old(self)@.union(Set::new(|j: nat| start_bit_incl <= j < i)));
            }
        }
    }

    fn clear(&mut self, bit: usize) {
        self.set.remove(&bit);
        proof {
            assert(self@ =~= old(self)@.remove(bit as nat));
        }
    }

    fn contains(&self, bit: usize) -> (r: bool) {
        self.set.contains(&bit)
    }

    fn first_set(&self) -> (r: Option<usize>) {
        let r = smallest_from(&self.set, 0);
        proof {
            match r {
                Some(i) => {
                    assert forall|j: nat| j < i implies !self@.contains(j) by {
                        if self@.contains(j) {
                            assert(self.set@.contains(j as usize));
                        }
                    }
                },
                None => {
                    assert(self@ =~= Set::<nat>::empty());
                },
            }
        }
        r
    }

    fn first_unset(&self) -> (r: Option<usize>) {
        self.first_unset_ge(0)
    }

    fn first_set_ge(&self, bit: usize) -> (r: Option<usize>) {
        let r = smallest_from(&self.set, bit);
        proof {
            match r {
                Some(i) => {
                    assert forall|j: nat| bit <= j < i implies !self@.contains(j) by {
                        if self@.contains(j) {
                            assert(self.set@.contains(j as usize));
                        }
                    }
                },
                None => {
                    assert forall|j: nat| bit <= j implies !self@.contains(j) by {
                        if self@.contains(j) {
                            assert(self.set@.contains(j as usize));
                        }
                    }
                },
            }
        }
        r
    }

    fn first_unset_ge(&self, bit: usize) -> (r: Option<usize>) {
        let mut expected: usize = bit;
        loop
            invariant
                self.wf(),
                bit <= expected,
                forall|j: nat| bit <= j < expected ==> self@.contains(j),
            decreases usize::MAX - expected,
        {
            match self.first_set_ge(expected) {
                Some(s) => {
                    if s == expected {
                        assert(self.set@.contains(s));
                        expected = expected + 1;
                    } else {
                        return Some(expected);
                    }
                },
                None => {
                    return Some(expected);
                },
            }
        }
    }

    fn union_with(&mut self, other: &Self) {
        let items = BitSetT::iter(other);
        let mut k: usize = 0;
        proof {
            lemma_listed_none(items@);
            assert(self@ =~= old(self)@.union(listed(items@, 0)));
        }
        while k < items.len()
            invariant
                k <= items@.len(),
                self.wf(),
                other.wf(),
                ascending_listing(items@, other@),
                self@ == old(self)@.union(listed(items@, k as int)),
            decreases items@.len() - k,
        {
            let ghost before = self@;
            let x: usize = items[k];
            proof {
                assert(other@.contains(items@[k as int] as nat));
                assert(other.set@.contains(x));
                lemma_listed_step(items@, k as int);
            }
            self.set.insert(x);
            k = k + 1;
            proof {
                assert(self@ =~= before.insert(x as nat));
                assert(self@ =~= old(self)@.union(listed(items@, k as int)));
            }
        }
        proof {
            lemma_listed_all(items@, other@);
        }
    }

    fn intersect_with(&mut self, other: &Self) {
        let items = BitSetT::iter(self);
        let mut k: usize = 0;
        proof {
            lemma_listed_none(items@);
            assert(self@ =~= old(self)@.difference(listed(items@, 0).difference(other@)));
        }
        while k < items.len()
            invariant
                k <= items@.len(),
                self.wf(),
                other.wf(),
                ascending_listing(items@, old(self)@),
                self@ == old(self)@.difference(listed(items@, k as int).difference(other@)),
            decreases items@.len() - k,
        {
            let ghost before = self@;
            let x: usize = items[k];
            let keep: bool = other.set.contains(&x);
            if !keep {
                self.set.remove(&x);
            }
            proof {
                lemma_listed_step(items@, k as int);
                assert(self@ =~= if keep {
                    before
                } else {
                    before.remove(x as nat)
                });
            }
            k = k + 1;
            proof {
                assert(self@ =~= old(self)@.difference(
                    listed(items@, k as int).difference(other@),
                ));
            }
        }
        proof {
            lemma_listed_all(items@, old(self)@);
            assert(self@ =~= old(self)@.intersect(other@));
        }
    }

    fn difference_with(&mut self, other: &Self) {
        let items = BitSetT::iter(other);
        let mut k: usize = 0;
        proof {
            lemma_listed_none(items@);
            assert(self@ =~= old(self)@.difference(listed(items@, 0)));
        }
        while k < items.len()
            invariant
                k <= items@.len(),
                self.wf(),
                other.wf(),
                ascending_listing(items@, other@),
                self@ == old(self)@.difference(listed(items@, k as int)),
            decreases items@.len() - k,
        {
            let ghost before = self@;
            let x: usize = items[k];
            self.set.remove(&x);
            proof {
                lemma_listed_step(items@, k as int);
                assert(self@ =~= before.remove(x as nat));
            }
            k = k + 1;
            proof {
                assert(self@ =~= old(self)@.difference(listed(items@, k as int)));
            }
        }
        proof {
            lemma_listed_all(items@, other@);
        }
    }

    fn intersect(&mut self, a: &Self, b: &Self) {
        self.clear_all();
        self.union_with(a);
        self.intersect_with(b);
        proof {
            assert(self@ =~= a@.intersect(b@));
        }
    }

    fn nth(&self, n: usize) -> (r: Option<usize>) {
        let mut acc: usize = 0;
        let mut cursor: usize = 0;
        proof {
            self.lemma_bounded();
            assert(within(self@, 0, 0) =~= Set::<nat>::empty());
        }
        loop
            invariant
                self.wf(),
                self@.finite(),
                self.cap() <= usize::MAX,
                forall|i: nat| self@.contains(i) ==> i < self.cap(),
                acc == within(self@, 0, cursor as nat).len(),
                acc <= cursor <= self.cap(),
                acc <= n,
            decreases self.cap() - cursor,
        {
            match self.first_set_ge(cursor) {
                None => {
                    proof {
                        lemma_count_done(self@, cursor as nat);
                    }
                    return None;
                },
                Some(i) => {
                    proof {
                        lemma_count_step(self@, cursor as nat, i as nat);
                        assert(within(self@, 0, i as nat) =~= within(self@, 0, cursor as nat));
                    }
                    if acc == n {
                        return Some(i);
                    }
                    acc = acc + 1;
                    cursor = i + 1;
                },
            }
        }
    }

    fn count(&self) -> (r: usize) {
        let mut acc: usize = 0;
        let mut cursor: usize = 0;
        proof {
            self.lemma_bounded();
            assert(within(self@, 0, 0) =~= Set::<nat>::empty());
        }
        loop
            invariant
                self.wf(),
                self@.finite(),
                self.cap() <= usize::MAX,
                forall|i: nat| self@.contains(i) ==> i < self.cap(),
                acc == within(self@, 0, cursor as nat).len(),
                acc <= cursor <= self.cap(),
            decreases self.cap() - cursor,
        {
            match self.first_set_ge(cursor) {
                None => {
                    proof {
                        lemma_count_done(self@, cursor as nat);
                    }
                    return acc;
                },
                Some(i) => {
                    proof {
                        lemma_count_step(self@, cursor as nat, i as nat);
                    }
                    acc = acc + 1;
                    cursor = i + 1;
                },
            }
        }
    }
}

} // verus!
