//! A growable set of small non-negative integers, stored as 64-bit
//! words in a storage of the caller's choice: a flat array, or a map
//! that keeps only the words with a one bit.

use std::collections::BTreeMap;
use vstd::prelude::*;

verus! {

/// The number of bits in one word of storage.
pub const WORD_BITS: usize = 64;

/// Whether bit `o` of `w` is one.
pub open spec fn bit_at(w: u64, o: u64) -> bool {
    (w >> o) & 1 == 1
}

proof fn lemma_bit_set(w: u64, o: u64, j: u64)
    requires
        o < 64,
        j < 64,
    ensures
        bit_at(w | (1u64 << o), j) == (bit_at(w, j) || j == o),
{
    assert(((w | (1u64 << o)) >> j) & 1 == 1 <==> ((w >> j) & 1 == 1 || j == o)) by (bit_vector)
        requires
            o < 64,
            j < 64,
    ;
}

proof fn lemma_bit_clear(w: u64, o: u64, j: u64)
    requires
        o < 64,
        j < 64,
    ensures
        bit_at(w & !(1u64 << o), j) == (bit_at(w, j) && j != o),
{
    assert(((w & !(1u64 << o)) >> j) & 1 == 1 <==> ((w >> j) & 1 == 1 && j != o)) by (bit_vector)
        requires
            o < 64,
            j < 64,
    ;
}

proof fn lemma_bit_get(w: u64, o: u64)
    requires
        o < 64,
    ensures
        ((w >> o) & 1 != 0) == bit_at(w, o),
{
    assert(((w >> o) & 1 != 0) <==> ((w >> o) & 1 == 1)) by (bit_vector);
}

proof fn lemma_bit_or(a: u64, b: u64, j: u64)
    requires
        j < 64,
    ensures
        bit_at(a | b, j) == (bit_at(a, j) || bit_at(b, j)),
{
    assert((((a | b) >> j) & 1 == 1) <==> ((a >> j) & 1 == 1 || (b >> j) & 1 == 1))
        by (bit_vector);
}

proof fn lemma_bit_and(a: u64, b: u64, j: u64)
    requires
        j < 64,
    ensures
        bit_at(a & b, j) == (bit_at(a, j) && bit_at(b, j)),
{
    assert((((a & b) >> j) & 1 == 1) <==> ((a >> j) & 1 == 1 && (b >> j) & 1 == 1))
        by (bit_vector);
}

proof fn lemma_bit_and_not(a: u64, b: u64, j: u64)
    requires
        j < 64,
    ensures
        bit_at(a & !b, j) == (bit_at(a, j) && !bit_at(b, j)),
{
    assert((((a & !b) >> j) & 1 == 1) <==> ((a >> j) & 1 == 1 && !((b >> j) & 1 == 1)))
        by (bit_vector);
}

proof fn lemma_bit_not(a: u64, j: u64)
    requires
        j < 64,
    ensures
        bit_at(!a, j) == !bit_at(a, j),
{
    assert((((!a) >> j) & 1 == 1) <==> !((a >> j) & 1 == 1)) by (bit_vector)
        requires
            j < 64,
    ;
}

proof fn lemma_bit_zero(j: u64)
    requires
        j < 64,
    ensures
        !bit_at(0, j),
        bit_at(0xffff_ffff_ffff_ffffu64, j),
{
    assert(!((0u64 >> j) & 1 == 1)) by (bit_vector);
    assert((0xffff_ffff_ffff_ffffu64 >> j) & 1 == 1) by (bit_vector)
        requires
            j < 64,
    ;
}

/// Bits of `w` at or above `o`.
proof fn lemma_bit_from(w: u64, o: u64, j: u64)
    requires
        o < 64,
        j < 64,
    ensures
        bit_at(w & (0xffff_ffff_ffff_ffffu64 << o), j) == (bit_at(w, j) && j >= o),
        bit_at(0xffff_ffff_ffff_ffffu64 << o, j) == (j >= o),
{
    assert((((w & (0xffff_ffff_ffff_ffffu64 << o)) >> j) & 1 == 1) <==> ((w >> j) & 1 == 1 && j
        >= o)) by (bit_vector)
        requires
            o < 64,
            j < 64,
    ;
    assert((((0xffff_ffff_ffff_ffffu64 << o) >> j) & 1 == 1) <==> (j >= o)) by (bit_vector)
        requires
            o < 64,
            j < 64,
    ;
}

/// The lowest one bit of a non-zero word.
proof fn lemma_lowest(w: u64)
    requires
        w != 0,
    ensures
        w.trailing_zeros() < 64,
        bit_at(w, w.trailing_zeros() as u64),
        forall|j: u64| j < w.trailing_zeros() ==> !#[trigger] bit_at(w, j),
{
    vstd::std_specs::bits::axiom_u64_trailing_zeros(w);
    let t = w.trailing_zeros();
    assert forall|j: u64| j < t implies !#[trigger] bit_at(w, j) by {
        assert((w >> j) & 1u64 == 0u64);
    }
}

/// Every bit of the full word is one.
proof fn lemma_full(j: u64)
    requires
        j < 64,
    ensures
        bit_at(u64::MAX, j),
{
    assert(j < 64 ==> (0xffff_ffff_ffff_ffffu64 >> j) & 1 == 1) by (bit_vector);
}

/// The complement of a word that is not full has a one bit.
proof fn lemma_not_full(w: u64)
    requires
        w != u64::MAX,
    ensures
        !w != 0,
{
    assert(w != 0xffff_ffff_ffff_ffffu64 ==> !w != 0) by (bit_vector);
}

/// A word with a one bit is not zero.
proof fn lemma_nonzero(w: u64, j: u64)
    requires
        j < 64,
        bit_at(w, j),
    ensures
        w != 0,
{
    assert((w >> j) & 1 == 1 ==> w != 0) by (bit_vector);
}

/// The numbers below `n`.
pub open spec fn below(n: nat) -> Set<nat> {
    Set::new(|i: nat| i < n)
}

/// There are exactly `n` numbers below `n`.
pub proof fn lemma_below_finite(n: nat)
    ensures
        below(n).finite(),
        below(n).len() == n,
    decreases n,
{
    if n == 0 {
        assert(below(0) =~= Set::<nat>::empty());
    } else {
        lemma_below_finite((n - 1) as nat);
        assert(below(n) =~= below((n - 1) as nat).insert((n - 1) as nat));
    }
}

/// `v` holds exactly the members of `s`, each once, in ascending order.
pub open spec fn ascending_listing(v: Seq<usize>, s: Set<nat>) -> bool {
    &&& forall|i: int, j: int| 0 <= i < j < v.len() ==> v[i] < v[j]
    &&& forall|i: int| 0 <= i < v.len() ==> s.contains(#[trigger] v[i] as nat)
    &&& forall|x: nat| s.contains(x) ==> exists|i: int| 0 <= i < v.len() && #[trigger] v[i] == x
}

/// The members of `s` from `lo` up to, but not including, `hi`.
pub open spec fn within(s: Set<nat>, lo: nat, hi: nat) -> Set<nat> {
    s.filter(|j: nat| lo <= j < hi)
}

/// A listing of the members in `[lo, c)` grows by `m`, the next member
/// at or above `c`, to a listing of the members in `[lo, m + 1)`.
pub proof fn lemma_listing_push(v: Seq<usize>, s: Set<nat>, lo: nat, c: nat, m: usize)
    requires
        ascending_listing(v, within(s, lo, c)),
        lo <= c <= m,
        s.contains(m as nat),
        forall|j: nat| c <= j < m ==> !s.contains(j),
    ensures
        ascending_listing(v.push(m), within(s, lo, (m + 1) as nat)),
{
    let w = v.push(m);
    let t = within(s, lo, (m + 1) as nat);
    assert forall|i: int, j: int| 0 <= i < j < w.len() implies w[i] < w[j] by {
        if j == v.len() {
            assert(within(s, lo, c).contains(v[i] as nat));
        }
    }
    assert forall|i: int| 0 <= i < w.len() implies t.contains(#[trigger] w[i] as nat) by {
        if i < v.len() {
            assert(within(s, lo, c).contains(v[i] as nat));
        }
    }
    assert forall|x: nat| t.contains(x) implies exists|i: int|
        0 <= i < w.len() && #[trigger] w[i] == x by {
        if x == m {
            assert(w[v.len() as int] == x);
        } else {
            assert(within(s, lo, c).contains(x));
            let i = choose|i: int| 0 <= i < v.len() && #[trigger] v[i] == x;
            assert(w[i] == x);
        }
    }
}

/// A listing of the members in `[lo, c)` is one of those in `[lo, d)`
/// where no member lies in `[c, d)`.
pub proof fn lemma_listing_skip(v: Seq<usize>, s: Set<nat>, lo: nat, c: nat, d: nat)
    requires
        ascending_listing(v, within(s, lo, c)),
        c <= d,
        forall|j: nat| c <= j < d ==> !s.contains(j),
    ensures
        ascending_listing(v, within(s, lo, d)),
{
    assert(within(s, lo, c) =~= within(s, lo, d));
}

/// A listing of the members in `[lo, c)` lists all members from `lo` on
/// where none lies at or above `c`.
pub proof fn lemma_listing_done(v: Seq<usize>, s: Set<nat>, lo: nat, c: nat)
    requires
        ascending_listing(v, within(s, lo, c)),
        forall|j: nat| c <= j ==> !s.contains(j),
    ensures
        ascending_listing(v, s.filter(|j: nat| lo <= j)),
{
    assert(within(s, lo, c) =~= s.filter(|j: nat| lo <= j));
}

/// Counting the members of a finite set in ascending order: with no
/// member in `[c, i)`, the members below `i + 1` are those below `c`,
/// and `i` itself where it is a member.
pub proof fn lemma_count_step(s: Set<nat>, c: nat, i: nat)
    requires
        s.finite(),
        c <= i,
        forall|j: nat| c <= j < i ==> !s.contains(j),
    ensures
        within(s, 0, c).finite(),
        within(s, 0, i + 1).finite(),
        within(s, 0, i + 1).len() == within(s, 0, c).len() + if s.contains(i) {
            1nat
        } else {
            0nat
        },
{
    vstd::set_lib::lemma_len_subset(within(s, 0, c), s);
    vstd::set_lib::lemma_len_subset(within(s, 0, i + 1), s);
    if s.contains(i) {
        assert(within(s, 0, i + 1) =~= within(s, 0, c).insert(i));
    } else {
        assert(within(s, 0, i + 1) =~= within(s, 0, c));
    }
}

/// With no member at or above `c`, the members below `c` are all.
pub proof fn lemma_count_done(s: Set<nat>, c: nat)
    requires
        forall|j: nat| c <= j ==> !s.contains(j),
    ensures
        within(s, 0, c) == s,
{
    assert(within(s, 0, c) =~= s);
}

/// One change to a set: with `present` the number joins the set, and
/// without it the number leaves.
pub struct Change {
    pub present: bool,
    pub number: nat,
}

/// The set that `s` becomes under the changes, applied in their order.
pub open spec fn changed(s: Set<nat>, changes: Seq<Change>) -> Set<nat>
    decreases changes.len(),
{
    if changes.len() == 0 {
        s
    } else if changes.last().present {
        changed(s, changes.drop_last()).insert(changes.last().number)
    } else {
        changed(s, changes.drop_last()).remove(changes.last().number)
    }
}

/// What the latest change to `i` says, if `i` is changed at all.
pub open spec fn latest(changes: Seq<Change>, i: nat) -> Option<bool>
    decreases changes.len(),
{
    if changes.len() == 0 {
        None
    } else if changes.last().number == i {
        Some(changes.last().present)
    } else {
        latest(changes.drop_last(), i)
    }
}

/// A number that was just added is a member, and one that was added and
/// then removed is none.
pub proof fn lemma_set_clear_contains(s: Set<nat>, i: nat)
    ensures
        s.insert(i).contains(i),
        !s.insert(i).remove(i).contains(i),
{
}

/// After any sequence of changes a number is a member exactly if the
/// latest change to it added it, or if it was a member and was not
/// changed; so the members of a set that was empty are the numbers whose
/// latest change added them, and their count is the count of the set.
pub proof fn lemma_changes(s: Set<nat>, changes: Seq<Change>, i: nat)
    requires
        s.finite(),
    ensures
        changed(s, changes).finite(),
        changed(s, changes).contains(i) == match latest(changes, i) {
            Some(present) => present,
            None => s.contains(i),
        },
    decreases changes.len(),
{
    if changes.len() > 0 {
        lemma_changes(s, changes.drop_last(), i);
    }
}

/// The members of a set that was empty before the changes are the
/// numbers whose latest change added them.
pub proof fn lemma_changes_from_empty(changes: Seq<Change>)
    ensures
        changed(Set::<nat>::empty(), changes) == Set::new(
            |i: nat| latest(changes, i) == Some(true),
        ),
{
    assert forall|i: nat|
        changed(Set::<nat>::empty(), changes).contains(i) == (latest(changes, i) == Some(
            true,
        )) by {
        lemma_changes(Set::<nat>::empty(), changes, i);
    }
    assert(changed(Set::<nat>::empty(), changes) =~= Set::new(
        |i: nat| latest(changes, i) == Some(true),
    ));
}

/// `n` words of zeros.
pub open spec fn zeros(n: nat) -> Seq<u64> {
    Seq::new(n, |i: int| 0u64)
}

/// A storage of words that a bitset is kept in: so many words, each
/// read and written by its position.
pub trait BlockStorage: Sized + View<V = Seq<u64>> {
    /// The invariant of the storage.
    spec fn wf(&self) -> bool;

    /// The words of a storage can be counted.
    proof fn lemma_counted(&self)
        requires
            self.wf(),
        ensures
            self@.len() <= usize::MAX,
    ;

    /// A storage of `blocks` words of zeros.
    fn with_capacity(blocks: usize) -> (r: Self)
        ensures
            r.wf(),
            r@ == zeros(blocks as nat),
    ;

    /// The number of words.
    fn block_count(&self) -> (r: usize)
        ensures
            r == self@.len(),
    ;

    /// The word at position `b`.
    fn get_idx(&self, b: usize) -> (r: u64)
        requires
            b < self@.len(),
        ensures
            r == self@[b as int],
    ;

    /// Writes `with` at position `b`.
    fn set_idx(&mut self, b: usize, with: u64)
        requires
            old(self).wf(),
            b < old(self)@.len(),
        ensures
            final(self).wf(),
            final(self)@ == old(self)@.update(b as int, with),
    ;

    /// Extends the storage with zeros to `blocks` words; it never
    /// shrinks.
    fn resize(&mut self, blocks: usize)
        requires
            old(self).wf(),
        ensures
            final(self).wf(),
            final(self)@ == if blocks > old(self)@.len() {
                old(self)@ + zeros((blocks - old(self)@.len()) as nat)
            } else {
                old(self)@
            },
    ;

    /// The first position at or after `start` of a word with a one bit.
    fn first_set_block_ge(&self, start: usize) -> (r: Option<usize>)
        requires
            self.wf(),
        ensures
            match r {
                Some(i) => start <= i < self@.len() && self@[i as int] != 0 && forall|j: int|
                    start <= j < i ==> self@[j] == 0,
                None => forall|j: int| start <= j < self@.len() ==> self@[j] == 0,
            },
    ;

    /// The first position of a word with a one bit.
    fn first_set_block(&self) -> (r: Option<usize>)
        requires
            self.wf(),
        ensures
            match r {
                Some(i) => i < self@.len() && self@[i as int] != 0 && forall|j: int|
                    0 <= j < i ==> self@[j] == 0,
                None => forall|j: int| 0 <= j < self@.len() ==> self@[j] == 0,
            },
    {
        self.first_set_block_ge(0)
    }

    /// The first position at or after `start` of a word with a zero
    /// bit.
    fn first_unset_block_ge(&self, start: usize) -> (r: Option<usize>)
        requires
            self.wf(),
        ensures
            match r {
                Some(i) => start <= i < self@.len() && self@[i as int] != u64::MAX && forall|j: int|
                    start <= j < i ==> self@[j] == u64::MAX,
                None => forall|j: int| start <= j < self@.len() ==> self@[j] == u64::MAX,
            },
    ;

    /// The first position of a word with a zero bit.
    fn first_unset_block(&self) -> (r: Option<usize>)
        requires
            self.wf(),
        ensures
            match r {
                Some(i) => i < self@.len() && self@[i as int] != u64::MAX && forall|j: int|
                    0 <= j < i ==> self@[j] == u64::MAX,
                None => forall|j: int| 0 <= j < self@.len() ==> self@[j] == u64::MAX,
            },
    {
        self.first_unset_block_ge(0)
    }
}

impl BlockStorage for Vec<u64> {
    open spec fn wf(&self) -> bool {
        true
    }

    proof fn lemma_counted(&self) {
        vstd::std_specs::vec::axiom_spec_len(self);
    }

    fn with_capacity(blocks: usize) -> (r: Self) {
        let mut words: Vec<u64> = Vec::new();
        let mut k: usize = 0;
        while k < blocks
            invariant
                k <= blocks,
                words@.len() == k,
                forall|j: int| 0 <= j < k ==> words@[j] == 0,
            decreases blocks - k,
        {
            words.push(0);
            k = k + 1;
        }
        proof {
            assert(words@ =~= zeros(blocks as nat));
        }
        words
    }

    fn block_count(&self) -> (r: usize) {
        self.len()
    }

    fn get_idx(&self, b: usize) -> (r: u64) {
        self[b]
    }

    fn set_idx(&mut self, b: usize, with: u64) {
        self.set(b, with);
    }

    fn resize(&mut self, blocks: usize) {
        while self.len() < blocks
            invariant
                self@.len() >= old(self)@.len(),
                self@.len() <= blocks || self@.len() == old(self)@.len(),
                forall|j: int| 0 <= j < old(self)@.len() ==> self@[j] == old(self)@[j],
                forall|j: int| old(self)@.len() <= j < self@.len() ==> self@[j] == 0,
            decreases blocks - self@.len(),
        {
            self.push(0);
        }
        proof {
            if blocks > old(self)@.len() {
                assert(self@ =~= old(self)@ + zeros((blocks - old(self)@.len()) as nat));
            } else {
                assert(self@ =~= old(self)@);
            }
        }
    }

    fn first_set_block_ge(&self, start: usize) -> (r: Option<usize>) {
        let mut k: usize = start;
        while k < self.len()
            invariant
                start <= k,
                forall|j: int| start <= j < k && j < self@.len() ==> self@[j] == 0,
            decreases self@.len() - k,
        {
            if self[k] != 0 {
                return Some(k);
            }
            k = k + 1;
        }
        None
    }

    fn first_unset_block_ge(&self, start: usize) -> (r: Option<usize>) {
        let mut k: usize = start;
        while k < self.len()
            invariant
                start <= k,
                forall|j: int| start <= j < k && j < self@.len() ==> self@[j] == u64::MAX,
            decreases self@.len() - k,
        {
            if self[k] != u64::MAX {
                return Some(k);
            }
            k = k + 1;
        }
        None
    }
}

/// Calls `BTreeMap::range` of the standard library on the positions from
/// `from` up to `to`, without `to`, and takes the first entry of the
/// range. The claim is that the map's order is that of its positions:
/// what comes back is the smallest position of the map in that range,
/// and nothing comes back where the map has none there.
#[verifier::external_body]
fn first_stored(map: &BTreeMap<usize, u64>, from: usize, to: usize) -> (r: Option<usize>)
    requires
        from <= to,
    ensures
        match r {
            Some(m) => from <= m < to && map@.contains_key(m) && forall|x: usize|
                map@.contains_key(x) && from <= x < to ==> m <= x,
            None => forall|x: usize| map@.contains_key(x) ==> !(from <= x < to),
        },
{
    map.range(from..to).next().map(|entry| *entry.0)
}

/// A storage that keeps only the words with a one bit, in a map by
/// position; every other word within its length is zero.
pub struct BTreeMapStorage {
    map: BTreeMap<usize, u64>,
    capacity: usize,
}

impl View for BTreeMapStorage {
    type V = Seq<u64>;

    closed spec fn view(&self) -> Seq<u64> {
        Seq::new(
            self.capacity as nat,
            |i: int|
                if 0 <= i <= usize::MAX && self.map@.contains_key(i as usize) {
                    self.map@[i as usize]
                } else {
                    0u64
                },
        )
    }
}

impl BlockStorage for BTreeMapStorage {
    closed spec fn wf(&self) -> bool {
        forall|k: usize| #[trigger]
            self.map@.contains_key(k) ==> k < self.capacity && self.map@[k] != 0
    }

    proof fn lemma_counted(&self) {
    }

    fn with_capacity(blocks: usize) -> (r: Self) {
        let r = BTreeMapStorage { map: BTreeMap::new(), capacity: blocks };
        proof {
            assert(r@ =~= zeros(blocks as nat));
        }
        r
    }

    fn block_count(&self) -> (r: usize) {
        self.capacity
    }

    fn get_idx(&self, b: usize) -> (r: u64) {
        match self.map.get(&b) {
            Some(w) => *w,
            None => 0,
        }
    }

    fn set_idx(&mut self, b: usize, with: u64) {
        if with == 0 {
            let _ = self.map.remove(&b);
        } else {
            let _ = self.map.insert(b, with);
        }
        proof {
            assert(self@ =~= old(self)@.update(b as int, with));
        }
    }

    fn resize(&mut self, blocks: usize) {
        if blocks > self.capacity {
            self.capacity = blocks;
            proof {
                assert(self@ =~= old(self)@ + zeros((blocks - old(self)@.len()) as nat));
            }
        }
    }

    fn first_set_block_ge(&self, start: usize) -> (r: Option<usize>) {
        if start >= self.capacity {
            return None;
        }
        first_stored(&self.map, start, self.capacity)
    }

    fn first_unset_block_ge(&self, start: usize) -> (r: Option<usize>) {
        let mut k: usize = start;
        while k < self.capacity
            invariant
                self.wf(),
                start <= k,
                forall|j: int| start <= j < k && j < self@.len() ==> self@[j] == u64::MAX,
            decreases self.capacity - k,
        {
            if self.get_idx(k) != u64::MAX {
                return Some(k);
            }
            k = k + 1;
        }
        None
    }
}

/// A set of small non-negative integers, kept in a storage of words.
///
/// Membership is the only thing a caller can observe; the capacity says
/// how far the storage currently reaches and only ever grows.
pub struct BitSet<S: BlockStorage> {
    storage: S,
}

impl<S: BlockStorage> View for BitSet<S> {
    type V = Set<nat>;

    closed spec fn view(&self) -> Set<nat> {
        Set::new(|i: nat| self.has(i))
    }
}

impl<S: BlockStorage> BitSet<S> {
    /// Whether `i` is stored as a one bit.
    pub closed spec fn has(&self, i: nat) -> bool {
        i / 64 < self.storage@.len() && bit_at(self.storage@[(i / 64) as int], (i % 64) as u64)
    }

    /// The number of bits that the storage reaches.
    pub closed spec fn cap(&self) -> nat {
        (64 * self.storage@.len()) as nat
    }

    /// The storage is addressable with machine integers.
    pub closed spec fn wf(&self) -> bool {
        self.storage.wf() && 64 * self.storage@.len() <= usize::MAX
    }

    /// Membership is `has`, every member lies below the capacity, and
    /// the set is finite.
    pub proof fn lemma_view(&self)
        ensures
            forall|i: nat| self@.contains(i) == self.has(i),
            forall|i: nat| self@.contains(i) ==> i < self.cap(),
            self@.finite(),
    {
        let bound = below(self.cap());
        lemma_below_finite(self.cap());
        assert(self@.subset_of(bound));
        vstd::set_lib::lemma_len_subset(self@, bound);
    }

    /// The capacity is a machine integer.
    pub proof fn lemma_cap(&self)
        requires
            self.wf(),
        ensures
            self.cap() <= usize::MAX,
    {
    }

    /// An empty set that reaches `blocks` words.
    pub fn new(blocks: usize) -> (r: Self)
        requires
            64 * blocks <= usize::MAX,
        ensures
            r.wf(),
            r@ == Set::<nat>::empty(),
            r.cap() == 64 * blocks,
    {
        let r = BitSet { storage: S::with_capacity(blocks) };
        proof {
            assert forall|i: nat| !r.has(i) by {
                if i / 64 < r.storage@.len() {
                    lemma_bit_zero((i % 64) as u64);
                }
            }
            assert(r@ =~= Set::<nat>::empty());
        }
        r
    }

    /// An empty set with no storage.
    pub fn create() -> (r: Self)
        ensures
            r.wf(),
            r@ == Set::<nat>::empty(),
            r.cap() == 0,
    {
        Self::new(0)
    }

    /// The number of words that hold `bits` bits.
    pub open spec fn words_for(bits: nat) -> nat {
        ((bits + 63) / 64) as nat
    }

    /// Extends the storage to reach at least `bits` bits. Membership is
    /// untouched and the capacity never shrinks.
    pub fn grow(&mut self, bits: usize)
        requires
            old(self).wf(),
            bits + 63 <= usize::MAX,
        ensures
            final(self).wf(),
            final(self)@ == old(self)@,
            final(self).cap() == if old(self).cap() >= 64 * Self::words_for(bits as nat) {
                old(self).cap()
            } else {
                64 * Self::words_for(bits as nat)
            },
            final(self).cap() >= bits,
    {
        let needed: usize = (bits + 63) / 64;
        self.storage.resize(needed);
        proof {
            assert forall|i: nat| self.has(i) == old(self).has(i) by {
                if i / 64 < self.storage@.len() && i / 64 >= old(self).storage@.len() {
                    lemma_bit_zero((i % 64) as u64);
                }
            }
            assert(self@ =~= old(self)@);
        }
    }

    /// The number of bits that the storage reaches.
    pub fn capacity(&self) -> (r: usize)
        requires
            self.wf(),
        ensures
            r == self.cap(),
    {
        self.storage.block_count() * 64
    }

    /// Adds `bit`, growing the storage where it does not reach.
    pub fn set(&mut self, bit: usize)
        requires
            old(self).wf(),
            bit + 64 <= usize::MAX,
        ensures
            final(self).wf(),
            final(self)@ == old(self)@.insert(bit as nat),
            final(self).cap() == if old(self).cap() > bit {
                old(self).cap()
            } else {
                64 * (bit as nat / 64 + 1)
            },
    {
        self.grow(bit + 1);
        let ghost mid = *self;
        let wi: usize = bit / 64;
        let o: u64 = (bit % 64) as u64;
        let w: u64 = self.storage.get_idx(wi);
        self.storage.set_idx(wi, w | (1u64 << o));
        proof {
            assert forall|i: nat| self@.contains(i) == old(self)@.insert(bit as nat).contains(
                i,
            ) by {
                assert(mid@.contains(i) == old(self)@.contains(i));
                if i / 64 == wi {
                    lemma_bit_set(w, o, (i % 64) as u64);
                }
            }
            assert(self@ =~= old(self)@.insert(bit as nat));
        }
    }

    /// Removes `bit`; nothing happens beyond the capacity.
    pub fn clear(&mut self, bit: usize)
        requires
            old(self).wf(),
        ensures
            final(self).wf(),
            final(self)@ == old(self)@.remove(bit as nat),
            final(self).cap() == old(self).cap(),
    {
        let wi: usize = bit / 64;
        if wi >= self.storage.block_count() {
            proof {
                assert(self@ =~= old(self)@.remove(bit as nat));
            }
            return ;
        }
        let o: u64 = (bit % 64) as u64;
        let w: u64 = self.storage.get_idx(wi);
        self.storage.set_idx(wi, w & !(1u64 << o));
        proof {
            assert forall|i: nat| self.has(i) == (old(self).has(i) && i != bit) by {
                if i / 64 == wi {
                    lemma_bit_clear(w, o, (i % 64) as u64);
                }
            }
            assert(self@ =~= old(self)@.remove(bit as nat));
        }
    }

    /// Removes every member; the capacity stays.
    pub fn clear_all(&mut self)
        requires
            old(self).wf(),
        ensures
            final(self).wf(),
            final(self)@ == Set::<nat>::empty(),
            final(self).cap() == old(self).cap(),
    {
        let n: usize = self.storage.block_count();
        let mut k: usize = 0;
        while k < n
            invariant
                self.storage.wf(),
                k <= n,
                self.storage@.len() == n,
                forall|j: int| 0 <= j < k ==> self.storage@[j] == 0,
            decreases n - k,
        {
            self.storage.set_idx(k, 0);
            k = k + 1;
        }
        proof {
            assert forall|i: nat| !self.has(i) by {
                if i / 64 < self.storage@.len() {
                    lemma_bit_zero((i % 64) as u64);
                }
            }
            assert(self@ =~= Set::<nat>::empty());
        }
    }

    /// Whether `bit` is a member.
    pub fn contains(&self, bit: usize) -> (r: bool)
        ensures
            r == self@.contains(bit as nat),
    {
        let wi: usize = bit / 64;
        if wi >= self.storage.block_count() {
            return false;
        }
        let o: u64 = (bit % 64) as u64;
        proof {
            lemma_bit_get(self.storage@[wi as int], o);
        }
        (self.storage.get_idx(wi) >> o) & 1 != 0
    }

    /// The members of `self` below `k`.
    pub open spec fn below_in(&self, k: nat) -> Set<nat> {
        self@.filter(|j: nat| j < k)
    }

    /// Extends the storage to `n` words of zeros; membership is untouched.
    fn grow_words(&mut self, n: usize)
        requires
            old(self).wf(),
            64 * n <= usize::MAX,
        ensures
            final(self).wf(),
            final(self)@ == old(self)@,
            final(self).storage@.len() == if old(self).storage@.len() >= n {
                old(self).storage@.len()
            } else {
                n as nat
            },
            forall|j: int|
                0 <= j < old(self).storage@.len() ==> final(self).storage@[j] == old(self).storage@[j],
            forall|j: int|
                old(self).storage@.len() <= j < final(self).storage@.len() ==> final(self).storage@[j]
                    == 0,
    {
        self.storage.resize(n);
        proof {
            assert forall|i: nat| self.has(i) == old(self).has(i) by {
                if i / 64 < self.storage@.len() && i / 64 >= old(self).storage@.len() {
                    lemma_bit_zero((i % 64) as u64);
                }
            }
            assert(self@ =~= old(self)@);
        }
    }

    /// The smallest member at or above `bit`, if there is one.
    pub fn first_set_ge(&self, bit: usize) -> (r: Option<usize>)
        requires
            self.wf(),
        ensures
            match r {
                Some(i) => i >= bit && self@.contains(i as nat) && forall|j: nat|
                    bit <= j < i ==> !self@.contains(j),
                None => forall|j: nat| bit <= j ==> !self@.contains(j),
            },
    {
        let wi: usize = bit / 64;
        if wi >= self.storage.block_count() {
            return None;
        }
        let o: u64 = (bit % 64) as u64;
        let first: u64 = self.storage.get_idx(wi) & (0xffff_ffff_ffff_ffffu64 << o);
        if first != 0 {
            let t: u32 = first.trailing_zeros();
            proof {
                lemma_lowest(first);
                lemma_bit_from(self.storage@[wi as int], o, t as u64);
                assert forall|j: nat| bit <= j < wi * 64 + t implies !self@.contains(j) by {
                    lemma_bit_from(self.storage@[wi as int], o, (j % 64) as u64);
                }
            }
            return Some(wi * 64 + t as usize);
        }
        proof {
            assert forall|j: nat| bit <= j < (wi + 1) * 64 implies !self@.contains(j) by {
                lemma_bit_from(self.storage@[wi as int], o, (j % 64) as u64);
                if bit_at(first, (j % 64) as u64) {
                    lemma_nonzero(first, (j % 64) as u64);
                }
            }
        }
        match self.storage.first_set_block_ge(wi + 1) {
            Some(k) => {
                let w: u64 = self.storage.get_idx(k);
                let t: u32 = w.trailing_zeros();
                proof {
                    lemma_lowest(w);
                    assert((k * 64 + t) / 64 == k && (k * 64 + t) % 64 == t);
                    assert forall|j: nat| bit <= j < k * 64 + t implies !self@.contains(j) by {
                        if j / 64 == k {
                            assert(!bit_at(w, (j % 64) as u64));
                        } else if j / 64 > wi && bit_at(
                            self.storage@[(j / 64) as int],
                            (j % 64) as u64,
                        ) {
                            lemma_nonzero(self.storage@[(j / 64) as int], (j % 64) as u64);
                        }
                    }
                }
                Some(k * 64 + t as usize)
            },
            None => {
                proof {
                    assert forall|j: nat| bit <= j implies !self@.contains(j) by {
                        if wi < j / 64 < self.storage@.len() && bit_at(
                            self.storage@[(j / 64) as int],
                            (j % 64) as u64,
                        ) {
                            lemma_nonzero(self.storage@[(j / 64) as int], (j % 64) as u64);
                        }
                    }
                }
                None
            },
        }
    }

    /// The smallest number at or above `bit` that is not a member: the
    /// capacity, or `bit` where that is more, where every number from
    /// `bit` up to the capacity is one.
    pub fn first_unset_ge(&self, bit: usize) -> (r: Option<usize>)
        requires
            self.wf(),
        ensures
            r matches Some(i) && bit <= i && !self@.contains(i as nat) && forall|j: nat|
                bit <= j < i ==> self@.contains(j),
    {
        let wi: usize = bit / 64;
        proof {
            self.lemma_view();
            self.lemma_cap();
        }
        if wi >= self.storage.block_count() {
            return Some(bit);
        }
        let o: u64 = (bit % 64) as u64;
        let first: u64 = !self.storage.get_idx(wi) & (0xffff_ffff_ffff_ffffu64 << o);
        if first != 0 {
            let t: u32 = first.trailing_zeros();
            proof {
                lemma_lowest(first);
                lemma_bit_from(!self.storage@[wi as int], o, t as u64);
                lemma_bit_not(self.storage@[wi as int], t as u64);
                assert forall|j: nat| bit <= j < wi * 64 + t implies self@.contains(j) by {
                    lemma_bit_from(!self.storage@[wi as int], o, (j % 64) as u64);
                    lemma_bit_not(self.storage@[wi as int], (j % 64) as u64);
                }
            }
            return Some(wi * 64 + t as usize);
        }
        proof {
            assert forall|j: nat| bit <= j < (wi + 1) * 64 implies self@.contains(j) by {
                lemma_bit_from(!self.storage@[wi as int], o, (j % 64) as u64);
                lemma_bit_not(self.storage@[wi as int], (j % 64) as u64);
                if bit_at(first, (j % 64) as u64) {
                    lemma_nonzero(first, (j % 64) as u64);
                }
            }
        }
        match self.storage.first_unset_block_ge(wi + 1) {
            Some(k) => {
                let w: u64 = !self.storage.get_idx(k);
                proof {
                    lemma_not_full(self.storage@[k as int]);
                }
                let t: u32 = w.trailing_zeros();
                proof {
                    lemma_lowest(w);
                    lemma_bit_not(self.storage@[k as int], t as u64);
                    assert((k * 64 + t) / 64 == k && (k * 64 + t) % 64 == t);
                    assert forall|j: nat| bit <= j < k * 64 + t implies self@.contains(j) by {
                        if j / 64 == k {
                            assert(!bit_at(w, (j % 64) as u64));
                            lemma_bit_not(self.storage@[k as int], (j % 64) as u64);
                        } else if j / 64 > wi {
                            lemma_full((j % 64) as u64);
                        }
                    }
                }
                Some(k * 64 + t as usize)
            },
            None => {
                proof {
                    assert forall|j: nat|
                        bit <= j < self.storage@.len() * 64 implies self@.contains(j) by {
                        if j / 64 > wi {
                            lemma_full((j % 64) as u64);
                        }
                    }
                }
                Some(self.storage.block_count() * 64)
            },
        }
    }

    /// The smallest member, if there is one.
    pub fn first_set(&self) -> (r: Option<usize>)
        requires
            self.wf(),
        ensures
            match r {
                Some(i) => self@.contains(i as nat) && forall|j: nat| j < i ==> !self@.contains(j),
                None => self@ == Set::<nat>::empty(),
            },
    {
        let r = self.first_set_ge(0);
        proof {
            if r.is_none() {
                assert(self@ =~= Set::<nat>::empty());
            }
        }
        r
    }

    /// The smallest number that is not a member: the capacity where
    /// every number below it is one.
    pub fn first_unset(&self) -> (r: Option<usize>)
        requires
            self.wf(),
        ensures
            r matches Some(i) && !self@.contains(i as nat) && forall|j: nat|
                j < i ==> self@.contains(j),
    {
        self.first_unset_ge(0)
    }

    /// Whether the set has no member.
    pub fn is_empty(&self) -> (r: bool)
        requires
            self.wf(),
        ensures
            r == (self@ == Set::<nat>::empty()),
    {
        let r = self.first_set();
        proof {
            if r.is_some() {
                assert(self@.contains(r.unwrap() as nat));
            }
        }
        r.is_none()
    }

    /// Removes and returns the smallest member, if there is one.
    pub fn pop_first_set(&mut self) -> (r: Option<usize>)
        requires
            old(self).wf(),
        ensures
            final(self).wf(),
            final(self).cap() == old(self).cap(),
            match r {
                Some(i) => old(self)@.contains(i as nat) && (forall|j: nat|
                    j < i ==> !old(self)@.contains(j)) && final(self)@ == old(self)@.remove(
                    i as nat,
                ),
                None => old(self)@ == Set::<nat>::empty() && final(self)@ == old(self)@,
            },
    {
        match self.first_set() {
            Some(i) => {
                self.clear(i);
                Some(i)
            },
            None => None,
        }
    }

    /// Adds every member of `other`; the storage grows to reach as far
    /// as `other`'s.
    pub fn union_with(&mut self, other: &Self)
        requires
            old(self).wf(),
            other.wf(),
        ensures
            final(self).wf(),
            final(self)@ == old(self)@.union(other@),
            final(self).cap() == if old(self).cap() >= other.cap() {
                old(self).cap()
            } else {
                other.cap()
            },
    {
        self.grow_words(other.storage.block_count());
        let ghost mid = *self;
        let n: usize = other.storage.block_count();
        let mut k: usize = 0;
        while k < n
            invariant
                self.storage.wf(),
                k <= n,
                n == other.storage@.len(),
                self.storage@.len() == mid.storage@.len(),
                n <= self.storage@.len(),
                forall|j: int| 0 <= j < k ==> self.storage@[j] == mid.storage@[j] | other.storage@[j],
                forall|j: int| k <= j < self.storage@.len() ==> self.storage@[j] == mid.storage@[j],
            decreases n - k,
        {
            let w: u64 = self.storage.get_idx(k) | other.storage.get_idx(k);
            self.storage.set_idx(k, w);
            k = k + 1;
        }
        proof {
            assert forall|i: nat| self@.contains(i) == old(self)@.union(other@).contains(i) by {
                assert(mid@.contains(i) == old(self)@.contains(i));
                if i / 64 < n {
                    lemma_bit_or(
                        mid.storage@[(i / 64) as int],
                        other.storage@[(i / 64) as int],
                        (i % 64) as u64,
                    );
                }
            }
            assert(self@ =~= old(self)@.union(other@));
        }
    }

    /// Keeps only the members that `other` has too; the capacity stays.
    pub fn intersect_with(&mut self, other: &Self)
        requires
            old(self).wf(),
            other.wf(),
        ensures
            final(self).wf(),
            final(self)@ == old(self)@.intersect(other@),
            final(self).cap() == old(self).cap(),
    {
        let n: usize = self.storage.block_count();
        let m: usize = other.storage.block_count();
        let mut k: usize = 0;
        while k < n
            invariant
                self.storage.wf(),
                k <= n,
                n == self.storage@.len(),
                n == old(self).storage@.len(),
                m == other.storage@.len(),
                forall|j: int|
                    0 <= j < k && j < m ==> self.storage@[j] == old(self).storage@[j] & other.storage@[j],
                forall|j: int| 0 <= j < k && j >= m ==> self.storage@[j] == 0,
                forall|j: int| k <= j < n ==> self.storage@[j] == old(self).storage@[j],
            decreases n - k,
        {
            if k < m {
                let w: u64 = self.storage.get_idx(k) & other.storage.get_idx(k);
                self.storage.set_idx(k, w);
            } else {
                self.storage.set_idx(k, 0);
            }
            k = k + 1;
        }
        proof {
            assert forall|i: nat| self@.contains(i) == old(self)@.intersect(other@).contains(
                i,
            ) by {
                if i / 64 < n {
                    if i / 64 < m {
                        lemma_bit_and(
                            old(self).storage@[(i / 64) as int],
                            other.storage@[(i / 64) as int],
                            (i % 64) as u64,
                        );
                    } else {
                        lemma_bit_zero((i % 64) as u64);
                    }
                }
            }
            assert(self@ =~= old(self)@.intersect(other@));
        }
    }

    /// Removes every member of `other`; the capacity stays.
    pub fn difference_with(&mut self, other: &Self)
        requires
            old(self).wf(),
            other.wf(),
        ensures
            final(self).wf(),
            final(self)@ == old(self)@.difference(other@),
            final(self).cap() == old(self).cap(),
    {
        let n: usize = if self.storage.block_count() < other.storage.block_count() {
            self.storage.block_count()
        } else {
            other.storage.block_count()
        };
        let mut k: usize = 0;
        while k < n
            invariant
                self.storage.wf(),
                k <= n,
                n <= self.storage@.len(),
                n <= other.storage@.len(),
                self.storage@.len() == old(self).storage@.len(),
                forall|j: int|
                    0 <= j < k ==> self.storage@[j] == old(self).storage@[j] & !other.storage@[j],
                forall|j: int| k <= j < self.storage@.len() ==> self.storage@[j] == old(self).storage@[j],
            decreases n - k,
        {
            let w: u64 = self.storage.get_idx(k) & !other.storage.get_idx(k);
            self.storage.set_idx(k, w);
            k = k + 1;
        }
        proof {
            assert forall|i: nat| self@.contains(i) == old(self)@.difference(other@).contains(
                i,
            ) by {
                if i / 64 < n {
                    lemma_bit_and_not(
                        old(self).storage@[(i / 64) as int],
                        other.storage@[(i / 64) as int],
                        (i % 64) as u64,
                    );
                }
            }
            assert(self@ =~= old(self)@.difference(other@));
        }
    }

    /// Makes `self` the intersection of `aset` and `bset`; the storage
    /// grows to reach as far as the larger of the two.
    pub fn intersect(&mut self, aset: &Self, bset: &Self)
        requires
            old(self).wf(),
            aset.wf(),
            bset.wf(),
        ensures
            final(self).wf(),
            final(self)@ == aset@.intersect(bset@),
            final(self).cap() >= old(self).cap(),
            final(self).cap() >= aset.cap(),
            final(self).cap() >= bset.cap(),
            final(self).cap() == old(self).cap() || final(self).cap() == aset.cap()
                || final(self).cap() == bset.cap(),
    {
        self.grow_words(aset.storage.block_count());
        self.grow_words(bset.storage.block_count());
        let n: usize = self.storage.block_count();
        let ma: usize = aset.storage.block_count();
        let mb: usize = bset.storage.block_count();
        let mut k: usize = 0;
        while k < n
            invariant
                self.storage.wf(),
                k <= n,
                n == self.storage@.len(),
                ma == aset.storage@.len(),
                mb == bset.storage@.len(),
                forall|j: int|
                    0 <= j < k && j < ma && j < mb ==> self.storage@[j] == aset.storage@[j]
                        & bset.storage@[j],
                forall|j: int| 0 <= j < k && !(j < ma && j < mb) ==> self.storage@[j] == 0,
            decreases n - k,
        {
            if k < ma && k < mb {
                let w: u64 = aset.storage.get_idx(k) & bset.storage.get_idx(k);
                self.storage.set_idx(k, w);
            } else {
                self.storage.set_idx(k, 0);
            }
            k = k + 1;
        }
        proof {
            assert forall|i: nat| self@.contains(i) == aset@.intersect(bset@).contains(i) by {
                if i / 64 < n {
                    if i / 64 < ma && i / 64 < mb {
                        lemma_bit_and(
                            aset.storage@[(i / 64) as int],
                            bset.storage@[(i / 64) as int],
                            (i % 64) as u64,
                        );
                    } else {
                        lemma_bit_zero((i % 64) as u64);
                    }
                }
            }
            assert(self@ =~= aset@.intersect(bset@));
        }
    }

    /// The smallest common member of `self` and `other` at or above `ge`,
    /// found word by word without building the intersection.
    pub fn intersect_first_set_ge(&self, other: &Self, ge: usize) -> (r: Option<usize>)
        requires
            self.wf(),
            other.wf(),
        ensures
            match r {
                Some(i) => i >= ge && self@.contains(i as nat) && other@.contains(i as nat)
                    && forall|j: nat|
                    ge <= j < i ==> !(self@.contains(j) && other@.contains(j)),
                None => forall|j: nat| ge <= j ==> !(self@.contains(j) && other@.contains(j)),
            },
    {
        let n: usize = if self.storage.block_count() < other.storage.block_count() {
            self.storage.block_count()
        } else {
            other.storage.block_count()
        };
        let wi: usize = ge / 64;
        if wi >= n {
            return None;
        }
        let o: u64 = (ge % 64) as u64;
        let both: u64 = self.storage.get_idx(wi) & other.storage.get_idx(wi);
        let first: u64 = both & (0xffff_ffff_ffff_ffffu64 << o);
        if first != 0 {
            let t: u32 = first.trailing_zeros();
            proof {
                lemma_lowest(first);
                lemma_bit_from(both, o, t as u64);
                lemma_bit_and(self.storage@[wi as int], other.storage@[wi as int], t as u64);
                assert forall|j: nat| ge <= j < wi * 64 + t implies !(self@.contains(j)
                    && other@.contains(j)) by {
                    lemma_bit_from(both, o, (j % 64) as u64);
                    lemma_bit_and(
                        self.storage@[wi as int],
                        other.storage@[wi as int],
                        (j % 64) as u64,
                    );
                }
            }
            return Some(wi * 64 + t as usize);
        }
        proof {
            assert forall|j: nat| ge <= j < (wi + 1) * 64 implies !(self@.contains(j)
                && other@.contains(j)) by {
                lemma_bit_from(both, o, (j % 64) as u64);
                lemma_bit_and(self.storage@[wi as int], other.storage@[wi as int], (j % 64) as u64);
                if bit_at(first, (j % 64) as u64) {
                    lemma_nonzero(first, (j % 64) as u64);
                }
            }
        }
        let mut k: usize = wi + 1;
        while k < n
            invariant
                self.wf(),
                other.wf(),
                wi == ge / 64,
                wi < k <= n,
                n <= self.storage@.len(),
                n <= other.storage@.len(),
                forall|j: nat| ge <= j < k * 64 ==> !(self@.contains(j) && other@.contains(j)),
            decreases n - k,
        {
            let w: u64 = self.storage.get_idx(k) & other.storage.get_idx(k);
            if w != 0 {
                let t: u32 = w.trailing_zeros();
                proof {
                    lemma_lowest(w);
                    lemma_bit_and(self.storage@[k as int], other.storage@[k as int], t as u64);
                    assert((k * 64 + t) / 64 == k && (k * 64 + t) % 64 == t);
                    assert forall|j: nat| ge <= j < k * 64 + t implies !(self@.contains(j)
                        && other@.contains(j)) by {
                        if j / 64 == k {
                            assert(!bit_at(w, (j % 64) as u64));
                            lemma_bit_and(
                                self.storage@[k as int],
                                other.storage@[k as int],
                                (j % 64) as u64,
                            );
                        }
                    }
                }
                return Some(k * 64 + t as usize);
            }
            proof {
                assert forall|j: nat| ge <= j < (k + 1) * 64 implies !(self@.contains(j)
                    && other@.contains(j)) by {
                    if j / 64 == k {
                        lemma_bit_and(
                            self.storage@[k as int],
                            other.storage@[k as int],
                            (j % 64) as u64,
                        );
                        if bit_at(w, (j % 64) as u64) {
                            lemma_nonzero(w, (j % 64) as u64);
                        }
                    }
                }
            }
            k = k + 1;
        }
        None
    }

    /// The smallest common member of `self` and `other`, if there is one.
    pub fn intersect_first_set(&self, other: &Self) -> (r: Option<usize>)
        requires
            self.wf(),
            other.wf(),
        ensures
            match r {
                Some(i) => self@.contains(i as nat) && other@.contains(i as nat) && forall|j: nat|
                    j < i ==> !(self@.contains(j) && other@.contains(j)),
                None => forall|j: nat| !(self@.contains(j) && other@.contains(j)),
            },
    {
        self.intersect_first_set_ge(other, 0)
    }

    /// Adds every number from `start` up to, but not including, `end`.
    pub fn set_between(&mut self, start: usize, end: usize)
        requires
            old(self).wf(),
            start < end ==> end + 63 <= usize::MAX,
        ensures
            final(self).wf(),
            final(self)@ == old(self)@.union(Set::new(|i: nat| start <= i < end)),
            final(self).cap() >= old(self).cap(),
            start < end ==> final(self).cap() >= end,
            final(self).cap() == if start < end && old(self).cap() < 64 * Self::words_for(
                end as nat,
            ) {
                64 * Self::words_for(end as nat)
            } else {
                old(self).cap()
            },
    {
        if start >= end {
            proof {
                assert(self@ =~= old(self)@.union(Set::new(|i: nat| start <= i < end)));
            }
            return ;
        }
        self.grow(end);
        let ghost mid = *self;
        let sw: usize = start / 64;
        let so: u64 = (start % 64) as u64;
        let ew: usize = (end - 1) / 64;
        let eo: u64 = ((end - 1) % 64) as u64;
        let ones: u64 = 0xffff_ffff_ffff_ffffu64;
        let left: u64 = ones << so;
        let right: u64 = if eo == 63 {
            ones
        } else {
            !(ones << ((eo + 1) as u64))
        };
        if sw == ew {
            let w: u64 = self.storage.get_idx(sw);
            self.storage.set_idx(sw, w | (left & right));
            proof {
                assert forall|i: nat| self@.contains(i) == old(self)@.union(
                    Set::new(|i: nat| start <= i < end),
                ).contains(i) by {
                    assert(mid@.contains(i) == old(self)@.contains(i));
                    if i / 64 == sw {
                        let j = (i % 64) as u64;
                        lemma_bit_or(w, left & right, j);
                        lemma_bit_and(left, right, j);
                        lemma_bit_from(ones, so, j);
                        lemma_bit_zero(j);
                        if eo != 63 {
                            lemma_bit_from(ones, (eo + 1) as u64, j);
                            lemma_bit_not(ones << ((eo + 1) as u64), j);
                        }
                    }
                }
                assert(self@ =~= old(self)@.union(Set::new(|i: nat| start <= i < end)));
            }
        } else {
            let w: u64 = self.storage.get_idx(sw);
            self.storage.set_idx(sw, w | left);
            let mut k: usize = sw + 1;
            while k < ew
                invariant
                    self.storage.wf(),
                    sw < k <= ew,
                    ew < self.storage@.len(),
                    self.storage@.len() == mid.storage@.len(),
                    self.storage@[sw as int] == mid.storage@[sw as int] | left,
                    forall|j: int| sw < j < k ==> self.storage@[j] == 0xffff_ffff_ffff_ffffu64,
                    forall|j: int|
                        0 <= j < self.storage@.len() && !(sw <= j < k) ==> self.storage@[j]
                            == mid.storage@[j],
                decreases ew - k,
            {
                self.storage.set_idx(k, 0xffff_ffff_ffff_ffffu64);
                k = k + 1;
            }
            let v: u64 = self.storage.get_idx(ew);
            self.storage.set_idx(ew, v | right);
            proof {
                assert forall|i: nat| self@.contains(i) == old(self)@.union(
                    Set::new(|i: nat| start <= i < end),
                ).contains(i) by {
                    assert(mid@.contains(i) == old(self)@.contains(i));
                    let j = (i % 64) as u64;
                    if i / 64 == sw {
                        lemma_bit_or(w, left, j);
                        lemma_bit_from(ones, so, j);
                    } else if i / 64 == ew {
                        lemma_bit_or(v, right, j);
                        lemma_bit_zero(j);
                        if eo != 63 {
                            lemma_bit_from(ones, (eo + 1) as u64, j);
                            lemma_bit_not(ones << ((eo + 1) as u64), j);
                        }
                    } else if sw < i / 64 < ew {
                        lemma_bit_zero(j);
                    }
                }
                assert(self@ =~= old(self)@.union(Set::new(|i: nat| start <= i < end)));
            }
        }
    }

    /// One more member found: the members below `i + 1` are those below
    /// `c` together with `i`.
    proof fn lemma_below_step(&self, c: nat, i: nat)
        requires
            c <= i,
            self@.contains(i),
            forall|j: nat| c <= j < i ==> !self@.contains(j),
        ensures
            self.below_in(i + 1) == self.below_in(c).insert(i),
            !self.below_in(c).contains(i),
            self.below_in(c).finite(),
            self.below_in(i + 1).len() == self.below_in(c).len() + 1,
    {
        self.lemma_view();
        assert(self.below_in(i + 1) =~= self.below_in(c).insert(i));
        vstd::set_lib::lemma_len_subset(self.below_in(c), self@);
    }

    /// No member at or above `c`: the members below `c` are all of them.
    proof fn lemma_below_all(&self, c: nat)
        requires
            forall|j: nat| c <= j ==> !self@.contains(j),
        ensures
            self.below_in(c) == self@,
    {
        assert(self.below_in(c) =~= self@);
    }

    /// The number of members.
    pub fn count(&self) -> (r: usize)
        requires
            self.wf(),
        ensures
            r == self@.len(),
    {
        let mut acc: usize = 0;
        let mut cursor: usize = 0;
        proof {
            self.lemma_view();
            assert(self.below_in(0) =~= Set::<nat>::empty());
        }
        loop
            invariant
                self.wf(),
                acc == self.below_in(cursor as nat).len(),
                acc <= cursor <= self.cap(),
            decreases self.cap() - cursor,
        {
            match self.first_set_ge(cursor) {
                None => {
                    proof {
                        self.lemma_below_all(cursor as nat);
                    }
                    return acc;
                },
                Some(i) => {
                    proof {
                        self.lemma_view();
                        self.lemma_below_step(cursor as nat, i as nat);
                    }
                    acc = acc + 1;
                    cursor = i + 1;
                },
            }
        }
    }

    /// The member with exactly `n` smaller members, if the set has more
    /// than `n` members.
    pub fn nth(&self, n: usize) -> (r: Option<usize>)
        requires
            self.wf(),
        ensures
            match r {
                Some(i) => self@.contains(i as nat) && self.below_in(i as nat).len() == n,
                None => self@.len() <= n,
            },
    {
        let mut acc: usize = 0;
        let mut cursor: usize = 0;
        proof {
            self.lemma_view();
            assert(self.below_in(0) =~= Set::<nat>::empty());
        }
        loop
            invariant
                self.wf(),
                acc == self.below_in(cursor as nat).len(),
                acc <= cursor <= self.cap(),
                acc <= n,
            decreases self.cap() - cursor,
        {
            match self.first_set_ge(cursor) {
                None => {
                    proof {
                        self.lemma_below_all(cursor as nat);
                    }
                    return None;
                },
                Some(i) => {
                    proof {
                        self.lemma_view();
                        self.lemma_below_step(cursor as nat, i as nat);
                        assert(self.below_in(i as nat) =~= self.below_in(cursor as nat));
                    }
                    if acc == n {
                        return Some(i);
                    }
                    acc = acc + 1;
                    cursor = i + 1;
                },
            }
        }
    }

    /// The members in ascending order.
    pub fn iter(&self) -> (r: Vec<usize>)
        requires
            self.wf(),
        ensures
            ascending_listing(r@, self@),
    {
        let mut out: Vec<usize> = Vec::new();
        let mut cursor: usize = 0;
        proof {
            self.lemma_view();
            assert(within(self@, 0, 0) =~= Set::<nat>::empty());
        }
        loop
            invariant
                self.wf(),
                cursor <= self.cap(),
                ascending_listing(out@, within(self@, 0, cursor as nat)),
            decreases self.cap() - cursor,
        {
            match self.first_set_ge(cursor) {
                None => {
                    proof {
                        lemma_listing_done(out@, self@, 0, cursor as nat);
                        assert(self@.filter(|j: nat| 0 <= j) =~= self@);
                    }
                    return out;
                },
                Some(i) => {
                    proof {
                        self.lemma_view();
                        lemma_listing_push(out@, self@, 0, cursor as nat, i);
                    }
                    out.push(i);
                    cursor = i + 1;
                },
            }
        }
    }

    /// The members of `self` or `other` in ascending order.
    pub fn iter_union(&self, other: &Self) -> (r: Vec<usize>)
        requires
            self.wf(),
            other.wf(),
        ensures
            ascending_listing(r@, self@.union(other@)),
    {
        let mut out: Vec<usize> = Vec::new();
        let mut cursor: usize = 0;
        let ghost s = self@.union(other@);
        proof {
            assert(within(s, 0, 0) =~= Set::<nat>::empty());
        }
        loop
            invariant
                self.wf(),
                other.wf(),
                s == self@.union(other@),
                cursor <= self.cap() || cursor <= other.cap(),
                ascending_listing(out@, within(s, 0, cursor as nat)),
            decreases self.cap() + other.cap() - cursor,
        {
            let a = self.first_set_ge(cursor);
            let b = other.first_set_ge(cursor);
            let next: Option<usize> = match (a, b) {
                (Some(x), Some(y)) => if x < y {
                    Some(x)
                } else {
                    Some(y)
                },
                (Some(x), None) => Some(x),
                (None, Some(y)) => Some(y),
                (None, None) => None,
            };
            match next {
                None => {
                    proof {
                        lemma_listing_done(out@, s, 0, cursor as nat);
                        assert(s.filter(|j: nat| 0 <= j) =~= s);
                    }
                    return out;
                },
                Some(i) => {
                    proof {
                        self.lemma_view();
                        other.lemma_view();
                        lemma_listing_push(out@, s, 0, cursor as nat, i);
                    }
                    out.push(i);
                    cursor = i + 1;
                },
            }
        }
    }

    /// The common members of `self` and `other` at or above `ge`, in
    /// ascending order.
    pub fn iter_intersection_ge(&self, other: &Self, ge: usize) -> (r: Vec<usize>)
        requires
            self.wf(),
            other.wf(),
        ensures
            ascending_listing(r@, self@.intersect(other@).filter(|j: nat| ge <= j)),
    {
        let mut out: Vec<usize> = Vec::new();
        let mut cursor: usize = ge;
        let ghost s = self@.intersect(other@);
        proof {
            assert(within(s, ge as nat, ge as nat) =~= Set::<nat>::empty());
        }
        loop
            invariant
                self.wf(),
                other.wf(),
                s == self@.intersect(other@),
                ge <= cursor,
                cursor <= self.cap() || cursor == ge,
                ascending_listing(out@, within(s, ge as nat, cursor as nat)),
            decreases self.cap() + 1 - cursor + (if cursor == ge { 1int } else { 0int }),
        {
            match self.intersect_first_set_ge(other, cursor) {
                None => {
                    proof {
                        lemma_listing_done(out@, s, ge as nat, cursor as nat);
                    }
                    return out;
                },
                Some(i) => {
                    proof {
                        self.lemma_view();
                        lemma_listing_push(out@, s, ge as nat, cursor as nat, i);
                    }
                    out.push(i);
                    cursor = i + 1;
                },
            }
        }
    }

    /// The common members of `self` and `other` in ascending order.
    pub fn iter_intersection(&self, other: &Self) -> (r: Vec<usize>)
        requires
            self.wf(),
            other.wf(),
        ensures
            ascending_listing(r@, self@.intersect(other@)),
    {
        let r = self.iter_intersection_ge(other, 0);
        proof {
            assert(self@.intersect(other@).filter(|j: nat| 0 <= j) =~= self@.intersect(other@));
        }
        r
    }

    /// The members of `self` that `other` lacks, in ascending order.
    pub fn iter_difference(&self, other: &Self) -> (r: Vec<usize>)
        requires
            self.wf(),
            other.wf(),
        ensures
            ascending_listing(r@, self@.difference(other@)),
    {
        let mut out: Vec<usize> = Vec::new();
        let mut cursor: usize = 0;
        let ghost s = self@.difference(other@);
        proof {
            assert(within(s, 0, 0) =~= Set::<nat>::empty());
        }
        loop
            invariant
                self.wf(),
                other.wf(),
                s == self@.difference(other@),
                cursor <= self.cap(),
                ascending_listing(out@, within(s, 0, cursor as nat)),
            decreases self.cap() - cursor,
        {
            match self.first_set_ge(cursor) {
                None => {
                    proof {
                        lemma_listing_done(out@, s, 0, cursor as nat);
                        assert(s.filter(|j: nat| 0 <= j) =~= s);
                    }
                    return out;
                },
                Some(i) => {
                    proof {
                        self.lemma_view();
                    }
                    if !other.contains(i) {
                        proof {
                            lemma_listing_push(out@, s, 0, cursor as nat, i);
                        }
                        out.push(i);
                    } else {
                        proof {
                            lemma_listing_skip(out@, s, 0, cursor as nat, (i + 1) as nat);
                        }
                    }
                    cursor = i + 1;
                },
            }
        }
    }
}

/// The set that the solver keeps its variables and clause slots in.
pub type DefaultBitSet = BitSet<Vec<u64>>;

/// A bitset that keeps only its words with a one bit.
pub type DefaultMapBitSet = BitSet<BTreeMapStorage>;

} // verus!
