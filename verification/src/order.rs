//! What the order of the standard library's ordered collections means
//! for the pairs of numbers that the solver keeps in them.

use std::cmp::Ordering;
use vstd::prelude::*;
use vstd::std_specs::cmp::OrdSpec;

verus! {

/// Whether the pair `a` comes before the pair `b` or is `b`: by the
/// first part, and among equal first parts by the second.
pub open spec fn pair_le(a: (u128, isize), b: (u128, isize)) -> bool {
    a.0 < b.0 || (a.0 == b.0 && a.1 <= b.1)
}

/// The order of pairs is that of their first parts, and among equal
/// first parts that of their second.
pub proof fn lemma_pair_order(a: (u128, isize), b: (u128, isize))
    ensures
        vstd::laws_cmp::obeys_cmp::<(u128, isize)>(),
        (a.cmp_spec(&b) == Ordering::Less) == (pair_le(a, b) && a != b),
        (a.cmp_spec(&b) == Ordering::Equal) == (a == b),
        (a.cmp_spec(&b) == Ordering::Greater) == (pair_le(b, a) && a != b),
{
    broadcast use vstd::laws_cmp::group_laws_cmp;

}

/// How two values of an ordered type compare.
pub open spec fn compared<K: Ord>(a: K, b: K) -> Ordering {
    a.cmp_spec(&b)
}

/// Keys that come in increasing order ascend as numbers.
pub proof fn lemma_keys_ascend(s: Seq<&usize>)
    requires
        vstd::std_specs::btree::increasing_seq(s),
    ensures
        forall|i: int, j: int| 0 <= i < j < s.len() ==> *(#[trigger] s[i]) < *(#[trigger] s[j]),
{
    broadcast use vstd::laws_cmp::group_laws_cmp;
    broadcast use vstd::std_specs::btree::group_btree_axioms;

    assert(vstd::laws_cmp::obeys_cmp::<&usize>());
    assert forall|i: int, j: int| 0 <= i < j < s.len() implies *(#[trigger] s[i]) < *(
    #[trigger] s[j]) by {
        assert(compared::<&usize>(s[i], s[j]) is Less);
    }
}

/// Sets of pairs of numbers are kept in the order of their pairs.
pub proof fn lemma_pairs_usable()
    ensures
        vstd::laws_cmp::obeys_cmp::<(u128, isize)>(),
{
    lemma_pair_order((0, 0), (0, 0));
}

} // verus!
