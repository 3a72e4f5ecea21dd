//! An ordered map held as a height-balanced search tree.

use core::cmp::Ordering;
use vstd::map::*;
use vstd::prelude::*;
use vstd::std_specs::cmp::OrdSpec;
use vstd::std_specs::cmp::PartialEqSpec;
use vstd::std_specs::cmp::PartialOrdSpec;

verus! {

/// Whether comparing keys of type `K` is a total order in which only a
/// key and itself compare equal.
pub open spec fn key_laws<K: Ord>() -> bool {
    vstd::laws_cmp::obeys_cmp::<K>() && vstd::laws_eq::obeys_concrete_eq::<K>()
}

/// Whether `a` comes before `b`.
pub open spec fn before<K: Ord>(a: K, b: K) -> bool {
    a.cmp_spec(&b) == Ordering::Less
}

/// What the order of keys gives: equal keys are the same key, each of
/// two different keys comes before the other or after it, and coming
/// before carries over.
pub proof fn lemma_order<K: Ord>(a: K, b: K, c: K)
    requires
        key_laws::<K>(),
    ensures
        K::obeys_cmp_spec(),
        (a.cmp_spec(&b) == Ordering::Equal) == (a == b),
        before(a, b) == (b.cmp_spec(&a) == Ordering::Greater),
        before(a, b) && before(b, c) ==> before(a, c),
        !before(a, a),
{
    reveal(vstd::laws_cmp::obeys_cmp_ord);
    reveal(vstd::laws_cmp::obeys_cmp_partial_ord);
    reveal(vstd::laws_cmp::obeys_partial_cmp_spec_properties);
    reveal(vstd::laws_eq::obeys_concrete_eq);
    assert(a.partial_cmp_spec(&b) == Some(a.cmp_spec(&b)));
    assert(b.partial_cmp_spec(&a) == Some(b.cmp_spec(&a)));
    assert(b.partial_cmp_spec(&c) == Some(b.cmp_spec(&c)));
    assert(a.partial_cmp_spec(&c) == Some(a.cmp_spec(&c)));
    assert(a.partial_cmp_spec(&a) == Some(a.cmp_spec(&a)));
    assert(a.eq_spec(&a));
}

/// Integer keys meet the laws, so a tree keyed by integers can be used
/// from verified code.
pub proof fn lemma_integer_keys()
    ensures
        key_laws::<usize>(),
        key_laws::<isize>(),
        key_laws::<u64>(),
        key_laws::<i64>(),
        key_laws::<u32>(),
        key_laws::<i32>(),
{
    broadcast use vstd::laws_cmp::group_laws_cmp, vstd::laws_eq::group_laws_eq;

}

/// One key with its value and the two subtrees beside it.
pub struct Node<K, V> {
    key: K,
    value: V,
    height: usize,
    left: Option<Box<Node<K, V>>>,
    right: Option<Box<Node<K, V>>>,
}

/// What the tree maps each of its keys to.
pub closed spec fn entries<K, V>(t: Option<Box<Node<K, V>>>) -> Map<K, V>
    decreases t,
{
    match t {
        None => Map::empty(),
        Some(n) => entries(n.left).union_prefer_right(entries(n.right)).insert(n.key, n.value),
    }
}

/// The number of nodes on the longest way down the tree.
pub closed spec fn depth<K, V>(t: Option<Box<Node<K, V>>>) -> nat
    decreases t,
{
    match t {
        None => 0,
        Some(n) => 1 + if depth(n.left) >= depth(n.right) {
            depth(n.left)
        } else {
            depth(n.right)
        },
    }
}

/// The number of nodes of the tree.
pub closed spec fn weight<K, V>(t: Option<Box<Node<K, V>>>) -> nat
    decreases t,
{
    match t {
        None => 0,
        Some(n) => 1 + weight(n.left) + weight(n.right),
    }
}

/// Whether each key comes after every key to its left and before every
/// key to its right.
pub closed spec fn ordered<K: Ord, V>(t: Option<Box<Node<K, V>>>) -> bool
    decreases t,
{
    match t {
        None => true,
        Some(n) => {
            &&& ordered(n.left)
            &&& ordered(n.right)
            &&& forall|k: K| #[trigger] entries(n.left).contains_key(k) ==> before(k, n.key)
            &&& forall|k: K| #[trigger] entries(n.right).contains_key(k) ==> before(n.key, k)
        },
    }
}

/// Whether every node records its depth.
pub closed spec fn measured<K, V>(t: Option<Box<Node<K, V>>>) -> bool
    decreases t,
{
    match t {
        None => true,
        Some(n) => measured(n.left) && measured(n.right) && n.height == depth(t),
    }
}

/// Whether at every node the depths of the two subtrees differ by one at
/// most.
pub closed spec fn balanced<K, V>(t: Option<Box<Node<K, V>>>) -> bool
    decreases t,
{
    match t {
        None => true,
        Some(n) => balanced(n.left) && balanced(n.right) && depth(n.left) <= depth(n.right) + 1
            && depth(n.right) <= depth(n.left) + 1,
    }
}

/// A tree is no deeper than it has nodes.
pub proof fn lemma_depth_weight<K, V>(t: Option<Box<Node<K, V>>>)
    ensures
        depth(t) <= weight(t),
    decreases t,
{
    match t {
        None => {},
        Some(n) => {
            lemma_depth_weight(n.left);
            lemma_depth_weight(n.right);
        },
    }
}

/// No key stands in the order on both sides of another, or of itself.
proof fn lemma_apart<K: Ord>(k: K, a: K, b: K)
    requires
        key_laws::<K>(),
    ensures
        !(before(k, a) && before(a, k)),
        !(before(k, b) && before(b, k)),
        !before(k, k),
        !before(a, a),
        before(a, b) ==> a != b,
        before(k, a) && before(a, b) ==> before(k, b),
        before(a, b) && before(b, k) ==> before(a, k),
        before(a, k) && before(k, b) ==> before(a, b),
{
    lemma_order(k, a, k);
    lemma_order(k, b, k);
    lemma_order(k, a, b);
    lemma_order(a, b, k);
    lemma_order(a, k, b);
    lemma_order(a, a, a);
    lemma_order(b, b, b);
}

/// The recorded depth of the tree.
fn height_of<K, V>(t: &Option<Box<Node<K, V>>>) -> (h: usize)
    requires
        measured(*t),
    ensures
        h == depth(*t),
{
    match t {
        None => 0,
        Some(n) => n.height,
    }
}

/// Records the depth of the node from the recorded depths of its
/// subtrees.
fn update_height<K, V>(n: &mut Box<Node<K, V>>)
    requires
        measured(old(n).left),
        measured(old(n).right),
        weight(Some(*old(n))) <= usize::MAX,
    ensures
        measured(Some(*final(n))),
        final(n).key == old(n).key,
        final(n).value == old(n).value,
        final(n).left == old(n).left,
        final(n).right == old(n).right,
{
    proof {
        lemma_depth_weight(n.left);
        lemma_depth_weight(n.right);
    }
    let lh: usize = height_of(&n.left);
    let rh: usize = height_of(&n.right);
    n.height = if lh >= rh {
        lh + 1
    } else {
        rh + 1
    };
}

/// Turns the tree to the right: the left child becomes the root, and
/// the old root its right child.
fn rotate_right<K: Ord, V>(y: Box<Node<K, V>>) -> (r: Box<Node<K, V>>)
    requires
        key_laws::<K>(),
        y.left is Some,
        measured(y.left),
        measured(y.right),
        ordered(Some(y)),
        weight(Some(y)) <= usize::MAX,
    ensures
        measured(Some(r)),
        ordered(Some(r)),
        entries(Some(r)) == entries(Some(y)),
        weight(Some(r)) == weight(Some(y)),
        r.left == y.left.unwrap().left,
        r.right is Some,
        r.right.unwrap().left == y.left.unwrap().right,
        r.right.unwrap().right == y.right,
{
    let mut y = y;
    let ghost y0 = y;
    proof {
        reveal_with_fuel(weight, 3);
    }
    let mut x = y.left.take().unwrap();
    let ghost x0 = x;
    y.left = x.right.take();
    update_height(&mut y);
    let ghost y1 = y;
    x.right = Some(y);
    update_height(&mut x);
    proof {
        reveal_with_fuel(entries, 3);
        reveal_with_fuel(ordered, 3);
        assert(entries(y0.left).contains_key(x0.key));
        assert forall|k: K|
            entries(Some(x)).contains_key(k) == entries(Some(y0)).contains_key(k) && (entries(
                Some(x),
            ).contains_key(k) ==> entries(Some(x))[k] == entries(Some(y0))[k]) by {
            lemma_apart(k, x0.key, y0.key);
            assert(entries(y0.left) == entries(x0.left).union_prefer_right(
                entries(x0.right),
            ).insert(x0.key, x0.value));
            assert(entries(Some(y1)) == entries(x0.right).union_prefer_right(
                entries(y0.right),
            ).insert(y0.key, y0.value));
            assert(entries(Some(x)) == entries(x0.left).union_prefer_right(
                entries(Some(y1)),
            ).insert(x0.key, x0.value));
            if entries(x0.left).contains_key(k) || entries(x0.right).contains_key(k) {
                assert(entries(y0.left).contains_key(k));
            }
        }
        assert(entries(Some(x)) =~= entries(Some(y0)));
        assert(ordered(Some(y1))) by {
            assert forall|k: K| #[trigger] entries(y1.left).contains_key(k) implies before(
                k,
                y1.key,
            ) by {
                assert(entries(y0.left).contains_key(k));
            }
        }
        assert(ordered(Some(x))) by {
            assert forall|k: K| #[trigger] entries(x.right).contains_key(k) implies before(
                x.key,
                k,
            ) by {
                if k == y0.key {
                    assert(entries(y0.left).contains_key(x0.key));
                } else if entries(y0.right).contains_key(k) {
                    assert(entries(y0.left).contains_key(x0.key));
                    lemma_order(x0.key, y0.key, k);
                } else {
                    assert(entries(x0.right).contains_key(k));
                }
            }
        }
    }
    x
}

/// Turns the tree to the left: the right child becomes the root, and
/// the old root its left child.
fn rotate_left<K: Ord, V>(x: Box<Node<K, V>>) -> (r: Box<Node<K, V>>)
    requires
        key_laws::<K>(),
        x.right is Some,
        measured(x.left),
        measured(x.right),
        ordered(Some(x)),
        weight(Some(x)) <= usize::MAX,
    ensures
        measured(Some(r)),
        ordered(Some(r)),
        entries(Some(r)) == entries(Some(x)),
        weight(Some(r)) == weight(Some(x)),
        r.right == x.right.unwrap().right,
        r.left is Some,
        r.left.unwrap().right == x.right.unwrap().left,
        r.left.unwrap().left == x.left,
{
    let mut x = x;
    let ghost x0 = x;
    proof {
        reveal_with_fuel(weight, 3);
    }
    let mut y = x.right.take().unwrap();
    let ghost y0 = y;
    x.right = y.left.take();
    update_height(&mut x);
    let ghost x1 = x;
    y.left = Some(x);
    update_height(&mut y);
    proof {
        reveal_with_fuel(entries, 3);
        reveal_with_fuel(ordered, 3);
        assert(entries(x0.right).contains_key(y0.key));
        assert forall|k: K|
            entries(Some(y)).contains_key(k) == entries(Some(x0)).contains_key(k) && (entries(
                Some(y),
            ).contains_key(k) ==> entries(Some(y))[k] == entries(Some(x0))[k]) by {
            lemma_apart(k, x0.key, y0.key);
            if entries(y0.left).contains_key(k) || entries(y0.right).contains_key(k) {
                assert(entries(x0.right).contains_key(k));
            }
        }
        assert(entries(Some(y)) =~= entries(Some(x0)));
        assert(ordered(Some(x1))) by {
            assert forall|k: K| #[trigger] entries(x1.right).contains_key(k) implies before(
                x1.key,
                k,
            ) by {
                assert(entries(x0.right).contains_key(k));
            }
        }
        assert(ordered(Some(y))) by {
            assert forall|k: K| #[trigger] entries(y.left).contains_key(k) implies before(
                k,
                y.key,
            ) by {
                if k == x0.key {
                    assert(entries(x0.right).contains_key(y0.key));
                } else if entries(x0.left).contains_key(k) {
                    assert(entries(x0.right).contains_key(y0.key));
                    lemma_order(k, x0.key, y0.key);
                } else {
                    assert(entries(y0.left).contains_key(k));
                }
            }
        }
    }
    y
}

/// What the measures of a tree say at its root.
proof fn lemma_node<K: Ord, V>(n: Box<Node<K, V>>)
    ensures
        depth(Some(n)) == 1 + if depth(n.left) >= depth(n.right) {
            depth(n.left)
        } else {
            depth(n.right)
        },
        weight(Some(n)) == 1 + weight(n.left) + weight(n.right),
        measured(Some(n)) == (measured(n.left) && measured(n.right) && n.height == depth(Some(n))),
        balanced(Some(n)) == (balanced(n.left) && balanced(n.right) && depth(n.left) <= depth(
            n.right,
        ) + 1 && depth(n.right) <= depth(n.left) + 1),
        n.left is None ==> depth(n.left) == 0,
        n.right is None ==> depth(n.right) == 0,
        n.left is Some ==> depth(n.left) >= 1,
        n.right is Some ==> depth(n.right) >= 1,
{
}

/// Whether the key `k` is in the tree, and with which value, told from
/// the root and the two subtrees.
proof fn lemma_at<K: Ord, V>(n: Box<Node<K, V>>, k: K)
    ensures
        entries(Some(n)).contains_key(k) == (k == n.key || entries(n.left).contains_key(k)
            || entries(n.right).contains_key(k)),
        k == n.key ==> entries(Some(n))[k] == n.value,
        k != n.key && entries(n.right).contains_key(k) ==> entries(Some(n))[k] == entries(
            n.right,
        )[k],
        k != n.key && !entries(n.right).contains_key(k) && entries(n.left).contains_key(k)
            ==> entries(Some(n))[k] == entries(n.left)[k],
{
}

/// Turns a tree whose left subtree is deeper by two to the right, after
/// turning that subtree to the left where its right side is the deeper.
fn lean_right<K: Ord, V>(n: Box<Node<K, V>>) -> (r: Box<Node<K, V>>)
    requires
        key_laws::<K>(),
        measured(n.left),
        measured(n.right),
        balanced(n.left),
        balanced(n.right),
        ordered(Some(n)),
        weight(Some(n)) <= usize::MAX,
        depth(n.left) == depth(n.right) + 2,
    ensures
        measured(Some(r)),
        balanced(Some(r)),
        ordered(Some(r)),
        entries(Some(r)) == entries(Some(n)),
        weight(Some(r)) == weight(Some(n)),
        depth(Some(r)) <= depth(Some(n)) <= depth(Some(r)) + 1,
{
    let mut n = n;
    let ghost n0 = n;
    proof {
        lemma_node(n0);
    }
    let l = n.left.take().unwrap();
    let ghost l0 = l;
    proof {
        lemma_node(l0);
    }
    let twice: bool = height_of(&l.left) < height_of(&l.right);
    let l = if twice {
        proof {
            lemma_node(l0.right.unwrap());
        }
        rotate_left(l)
    } else {
        l
    };
    let ghost l1 = l;
    n.left = Some(l);
    proof {
        lemma_node(l1);
        if twice {
            lemma_node(l1.left.unwrap());
        }
        lemma_node(n);
        assert(ordered(Some(n))) by {
            assert forall|k: K| #[trigger] entries(n.left).contains_key(k) implies before(
                k,
                n.key,
            ) by {
                assert(entries(n0.left).contains_key(k));
            }
        }
        assert(entries(Some(n)) =~= entries(Some(n0)));
    }
    let r = rotate_right(n);
    proof {
        lemma_node(r);
        lemma_node(r.right.unwrap());
        if twice {
            lemma_node(r.left.unwrap());
        }
    }
    r
}

/// Turns a tree whose right subtree is deeper by two to the left, after
/// turning that subtree to the right where its left side is the deeper.
fn lean_left<K: Ord, V>(n: Box<Node<K, V>>) -> (r: Box<Node<K, V>>)
    requires
        key_laws::<K>(),
        measured(n.left),
        measured(n.right),
        balanced(n.left),
        balanced(n.right),
        ordered(Some(n)),
        weight(Some(n)) <= usize::MAX,
        depth(n.right) == depth(n.left) + 2,
    ensures
        measured(Some(r)),
        balanced(Some(r)),
        ordered(Some(r)),
        entries(Some(r)) == entries(Some(n)),
        weight(Some(r)) == weight(Some(n)),
        depth(Some(r)) <= depth(Some(n)) <= depth(Some(r)) + 1,
{
    let mut n = n;
    let ghost n0 = n;
    proof {
        lemma_node(n0);
    }
    let x = n.right.take().unwrap();
    let ghost x0 = x;
    proof {
        lemma_node(x0);
    }
    let twice: bool = height_of(&x.left) > height_of(&x.right);
    let x = if twice {
        proof {
            lemma_node(x0.left.unwrap());
        }
        rotate_right(x)
    } else {
        x
    };
    let ghost x1 = x;
    n.right = Some(x);
    proof {
        lemma_node(x1);
        if twice {
            lemma_node(x1.right.unwrap());
        }
        lemma_node(n);
        assert(ordered(Some(n))) by {
            assert forall|k: K| #[trigger] entries(n.right).contains_key(k) implies before(
                n.key,
                k,
            ) by {
                assert(entries(n0.right).contains_key(k));
            }
        }
        assert(entries(Some(n)) =~= entries(Some(n0)));
    }
    let r = rotate_left(n);
    proof {
        lemma_node(r);
        lemma_node(r.left.unwrap());
        if twice {
            lemma_node(r.right.unwrap());
        }
    }
    r
}

/// Restores the balance at the root of a tree whose subtrees are
/// balanced and differ in depth by two at most: the depth is recorded,
/// and where the subtrees differ by two the tree is turned towards the
/// shallow side.
fn rebalance<K: Ord, V>(n: Box<Node<K, V>>) -> (r: Box<Node<K, V>>)
    requires
        key_laws::<K>(),
        measured(n.left),
        measured(n.right),
        balanced(n.left),
        balanced(n.right),
        ordered(Some(n)),
        weight(Some(n)) <= usize::MAX,
        depth(n.left) <= depth(n.right) + 2,
        depth(n.right) <= depth(n.left) + 2,
    ensures
        measured(Some(r)),
        balanced(Some(r)),
        ordered(Some(r)),
        entries(Some(r)) == entries(Some(n)),
        weight(Some(r)) == weight(Some(n)),
        depth(Some(r)) <= depth(Some(n)) <= depth(Some(r)) + 1,
        depth(n.left) <= depth(n.right) + 1 && depth(n.right) <= depth(n.left) + 1 ==> depth(
            Some(r),
        ) == depth(Some(n)),
{
    let mut n = n;
    let ghost n0 = n;
    update_height(&mut n);
    proof {
        lemma_node(n0);
        lemma_node(n);
        assert(ordered(Some(n)) == ordered(Some(n0)));
        assert(entries(Some(n)) == entries(Some(n0)));
    }
    let lh: usize = height_of(&n.left);
    let rh: usize = height_of(&n.right);
    if lh > 1 && lh - 2 >= rh {
        lean_right(n)
    } else if rh > 1 && rh - 2 >= lh {
        lean_left(n)
    } else {
        n
    }
}

/// Puts the key with its value in the tree, in place of the value it
/// had if it was there, and restores the balance on the way back up.
fn insert_node<K: Ord, V>(t: Option<Box<Node<K, V>>>, key: K, value: V) -> (r: Box<Node<K, V>>)
    requires
        key_laws::<K>(),
        measured(t),
        balanced(t),
        ordered(t),
        weight(t) < usize::MAX,
    ensures
        measured(Some(r)),
        balanced(Some(r)),
        ordered(Some(r)),
        entries(Some(r)) == entries(t).insert(key, value),
        depth(t) <= depth(Some(r)) <= depth(t) + 1,
        weight(t) <= weight(Some(r)) <= weight(t) + 1,
    decreases t,
{
    match t {
        None => {
            let r = Box::new(Node { key, value, height: 1, left: None, right: None });
            proof {
                lemma_node(r);
                assert(entries(Some(r)) =~= entries(t).insert(key, value));
            }
            r
        },
        Some(n) => {
            let mut n = n;
            let ghost n0 = n;
            proof {
                lemma_order(key, n.key, key);
                lemma_order(n.key, key, key);
                lemma_node(n0);
            }
            match key.cmp(&n.key) {
                Ordering::Less => {
                    let l = insert_node(n.left.take(), key, value);
                    n.left = Some(l);
                },
                Ordering::Greater => {
                    let x = insert_node(n.right.take(), key, value);
                    n.right = Some(x);
                },
                Ordering::Equal => {
                    n.value = value;
                },
            }
            proof {
                lemma_node(n);
                assert forall|k: K|
                    entries(Some(n)).contains_key(k) == entries(t).insert(key, value).contains_key(
                        k,
                    ) && (entries(Some(n)).contains_key(k) ==> entries(Some(n))[k] == entries(
                        t,
                    ).insert(key, value)[k]) by {
                    lemma_at(n, k);
                    lemma_at(n0, k);
                    lemma_apart(k, key, n0.key);
                    lemma_apart(key, n0.key, n0.key);
                }
                assert(entries(Some(n)) =~= entries(t).insert(key, value));
                assert(ordered(Some(n))) by {
                    assert forall|k: K| #[trigger] entries(n.left).contains_key(k) implies before(
                        k,
                        n.key,
                    ) by {
                        if k != key {
                            assert(entries(n0.left).contains_key(k));
                        }
                    }
                    assert forall|k: K| #[trigger] entries(n.right).contains_key(k) implies before(
                        n.key,
                        k,
                    ) by {
                        if k != key {
                            assert(entries(n0.right).contains_key(k));
                        }
                    }
                }
            }
            rebalance(n)
        },
    }
}

/// Takes the first key of the tree out of it and returns the rest with
/// that key and its value.
fn pop_min<K: Ord, V>(n: Box<Node<K, V>>) -> (r: (Option<Box<Node<K, V>>>, K, V))
    requires
        key_laws::<K>(),
        measured(Some(n)),
        balanced(Some(n)),
        ordered(Some(n)),
        weight(Some(n)) <= usize::MAX,
    ensures
        measured(r.0),
        balanced(r.0),
        ordered(r.0),
        entries(Some(n)).contains_key(r.1),
        entries(Some(n))[r.1] == r.2,
        entries(r.0) == entries(Some(n)).remove(r.1),
        forall|k: K| #[trigger] entries(r.0).contains_key(k) ==> before(r.1, k),
        depth(r.0) <= depth(Some(n)) <= depth(r.0) + 1,
        weight(r.0) + 1 == weight(Some(n)),
    decreases n,
{
    let mut n = n;
    let ghost n0 = n;
    proof {
        lemma_node(n0);
    }
    if n.left.is_none() {
        let node = *n;
        let Node { key, value, height: _, left: _, right } = node;
        proof {
            assert_maps_equal!(entries(right), entries(Some(n0)).remove(key), k => {
                lemma_at(n0, k);
                lemma_apart(k, key, key);
            });
            lemma_at(n0, key);
        }
        (right, key, value)
    } else {
        let (l, k, v) = pop_min(n.left.take().unwrap());
        n.left = l;
        proof {
            lemma_node(n);
            assert(entries(n0.left).contains_key(k));
            lemma_apart(k, n0.key, n0.key);
            lemma_pruned(n0, n, k);
            lemma_at(n0, k);
            assert forall|q: K| #[trigger] entries(Some(n)).contains_key(q) implies before(k, q) by {
                lemma_at(n, q);
                lemma_apart(q, k, n0.key);
                lemma_order(k, n0.key, q);
            }
            assert(!entries(n0.right).contains_key(k)) by {
                lemma_apart(k, n0.key, n0.key);
            }
        }
        let r = rebalance(n);
        (Some(r), k, v)
    }
}

/// Takes the key out of the tree, if it is there, and restores the
/// balance on the way back up. A node with two subtrees gives its place
/// to the first key of its right subtree.
fn delete_node<K: Ord, V>(t: Option<Box<Node<K, V>>>, key: &K) -> (r: Option<Box<Node<K, V>>>)
    requires
        key_laws::<K>(),
        measured(t),
        balanced(t),
        ordered(t),
        weight(t) <= usize::MAX,
    ensures
        measured(r),
        balanced(r),
        ordered(r),
        entries(r) == entries(t).remove(*key),
        depth(r) <= depth(t) <= depth(r) + 1,
        weight(r) <= weight(t),
    decreases t,
{
    match t {
        None => {
            proof {
                assert(entries(t).remove(*key) =~= entries(t));
            }
            None
        },
        Some(n) => {
            let mut n = n;
            let ghost n0 = n;
            proof {
                lemma_order(*key, n.key, *key);
                lemma_order(n.key, *key, *key);
                lemma_node(n0);
            }
            match key.cmp(&n.key) {
                Ordering::Less => {
                    let l = delete_node(n.left.take(), key);
                    n.left = l;
                    proof {
                        lemma_node(n);
                        lemma_pruned(n0, n, *key);
                    }
                    Some(rebalance(n))
                },
                Ordering::Greater => {
                    let x = delete_node(n.right.take(), key);
                    n.right = x;
                    proof {
                        lemma_node(n);
                        lemma_pruned(n0, n, *key);
                    }
                    Some(rebalance(n))
                },
                Ordering::Equal => {
                    if n.left.is_none() {
                        let r = n.right.take();
                        proof {
                            assert forall|k: K|
                                entries(r).contains_key(k) == entries(t).remove(*key).contains_key(
                                    k,
                                ) && (entries(r).contains_key(k) ==> entries(r)[k] == entries(
                                    t,
                                ).remove(*key)[k]) by {
                                lemma_at(n0, k);
                                lemma_apart(k, n0.key, n0.key);
                            }
                            assert(entries(r) =~= entries(t).remove(*key));
                        }
                        r
                    } else if n.right.is_none() {
                        let l = n.left.take();
                        proof {
                            assert forall|k: K|
                                entries(l).contains_key(k) == entries(t).remove(*key).contains_key(
                                    k,
                                ) && (entries(l).contains_key(k) ==> entries(l)[k] == entries(
                                    t,
                                ).remove(*key)[k]) by {
                                lemma_at(n0, k);
                                lemma_apart(k, n0.key, n0.key);
                            }
                            assert(entries(l) =~= entries(t).remove(*key));
                        }
                        l
                    } else {
                        let (rest, k, v) = pop_min(n.right.take().unwrap());
                        n.key = k;
                        n.value = v;
                        n.right = rest;
                        proof {
                            lemma_node(n);
                            assert(entries(n0.right).contains_key(k));
                            lemma_apart(k, n0.key, n0.key);
                            assert_maps_equal!(entries(Some(n)), entries(t).remove(*key), q => {
                                lemma_at(n, q);
                                lemma_at(n0, q);
                                lemma_apart(q, n0.key, k);
                            });
                            assert(ordered(Some(n))) by {
                                assert forall|q: K| #[trigger]
                                    entries(n.left).contains_key(q) implies before(q, n.key) by {
                                    lemma_apart(q, n0.key, k);
                                }
                            }
                        }
                        Some(rebalance(n))
                    }
                },
            }
        },
    }
}

/// A node of which one subtree lost the key `key`, where that key is
/// not the node's own, maps what it mapped before but for that key, and
/// is ordered as it was.
proof fn lemma_pruned<K: Ord, V>(was: Box<Node<K, V>>, now: Box<Node<K, V>>, key: K)
    requires
        key_laws::<K>(),
        ordered(Some(was)),
        ordered(now.left),
        ordered(now.right),
        now.key == was.key,
        now.value == was.value,
        key != was.key,
        before(key, was.key) ==> entries(now.left) == entries(was.left).remove(key)
            && now.right == was.right,
        !before(key, was.key) ==> entries(now.right) == entries(was.right).remove(key)
            && now.left == was.left,
    ensures
        ordered(Some(now)),
        entries(Some(now)) == entries(Some(was)).remove(key),
{
    assert_maps_equal!(entries(Some(now)), entries(Some(was)).remove(key), k => {
        lemma_at(now, k);
        lemma_at(was, k);
        lemma_apart(k, key, was.key);
        lemma_apart(key, was.key, was.key);
        lemma_order(was.key, key, key);
    });
    assert forall|k: K| #[trigger] entries(now.left).contains_key(k) implies before(k, now.key) by {
        assert(entries(was.left).contains_key(k));
    }
    assert forall|k: K| #[trigger] entries(now.right).contains_key(k) implies before(
        now.key,
        k,
    ) by {
        assert(entries(was.right).contains_key(k));
    }
}

/// Whether the tree is balanced, and its depth, both found by walking
/// it.
fn check_balance<K, V>(t: &Option<Box<Node<K, V>>>) -> (r: (bool, usize))
    requires
        weight(*t) <= usize::MAX,
    ensures
        r.0 == balanced(*t),
        r.1 == depth(*t),
    decreases *t,
{
    proof {
        reveal_with_fuel(weight, 2);
        reveal_with_fuel(depth, 2);
        reveal_with_fuel(balanced, 2);
    }
    match t {
        None => (true, 0),
        Some(n) => {
            proof {
                lemma_depth_weight(n.left);
                lemma_depth_weight(n.right);
            }
            let (lb, lh) = check_balance(&n.left);
            let (rb, rh) = check_balance(&n.right);
            let near: bool = if lh >= rh {
                lh - rh <= 1
            } else {
                rh - lh <= 1
            };
            let top: usize = if lh >= rh {
                lh + 1
            } else {
                rh + 1
            };
            (lb && rb && near, top)
        },
    }
}

/// The nodes of the tree from first key to last, each with its distance
/// from the root counted from `level`.
pub closed spec fn listing<K, V>(t: Option<Box<Node<K, V>>>, level: nat) -> Seq<(nat, K, V)>
    decreases t,
{
    match t {
        None => Seq::empty(),
        Some(n) => listing(n.left, level + 1).push((level, n.key, n.value)).add(
            listing(n.right, level + 1),
        ),
    }
}

/// Whether the list holds each key of the map once, from first key to
/// last, each with its value and with a distance from `level` up to,
/// but not including, `level + deep`.
pub open spec fn lists<K: Ord, V>(
    list: Seq<(nat, K, V)>,
    map: Map<K, V>,
    level: nat,
    deep: nat,
) -> bool {
    &&& forall|i: int|
        0 <= i < list.len() ==> map.contains_key((#[trigger] list[i]).1) && map[list[i].1]
            == list[i].2 && level <= list[i].0 < level + deep
    &&& forall|k: K| #[trigger]
        map.contains_key(k) ==> exists|i: int| 0 <= i < list.len() && (#[trigger] list[i]).1 == k
    &&& forall|i: int, j: int|
        0 <= i < j < list.len() ==> before((#[trigger] list[i]).1, (#[trigger] list[j]).1)
}

/// The listing of a search tree holds each of its keys once, from first
/// key to last, with its value.
pub proof fn lemma_listing<K: Ord, V>(t: Option<Box<Node<K, V>>>, level: nat)
    requires
        key_laws::<K>(),
        ordered(t),
    ensures
        listing(t, level).len() == weight(t),
        lists(listing(t, level), entries(t), level, depth(t)),
    decreases t,
{
    match t {
        None => {},
        Some(n) => {
            lemma_listing(n.left, level + 1);
            lemma_listing(n.right, level + 1);
            let a = listing(n.left, level + 1);
            let b = listing(n.right, level + 1);
            let l = listing(t, level);
            let m = entries(t);
            let x = (level, n.key, n.value);
            assert(l == a.push(x).add(b));
            assert forall|i: int| 0 <= i < l.len() implies m.contains_key((#[trigger] l[i]).1)
                && m[l[i].1] == l[i].2 && level <= l[i].0 < level + depth(t) by {
                if i < a.len() {
                    assert(l[i] == a[i]);
                    lemma_order(a[i].1, n.key, a[i].1);
                    if entries(n.right).contains_key(a[i].1) {
                        lemma_order(n.key, a[i].1, n.key);
                    }
                } else if i == a.len() {
                    assert(l[i] == x);
                } else {
                    assert(l[i] == b[i - a.len() - 1]);
                    lemma_order(n.key, l[i].1, n.key);
                }
            }
            assert forall|k: K| #[trigger] m.contains_key(k) implies exists|i: int|
                0 <= i < l.len() && (#[trigger] l[i]).1 == k by {
                if k == n.key {
                    assert(l[a.len() - 0] == x);
                } else if entries(n.right).contains_key(k) {
                    let j = choose|j: int| 0 <= j < b.len() && (#[trigger] b[j]).1 == k;
                    assert(l[a.len() + 1 + j] == b[j]);
                } else {
                    assert(entries(n.left).contains_key(k));
                    let j = choose|j: int| 0 <= j < a.len() && (#[trigger] a[j]).1 == k;
                    assert(l[j] == a[j]);
                }
            }
            assert forall|i: int, j: int| 0 <= i < j < l.len() implies before(
                (#[trigger] l[i]).1,
                (#[trigger] l[j]).1,
            ) by {
                if j < a.len() {
                    assert(l[i] == a[i] && l[j] == a[j]);
                } else if j == a.len() {
                    assert(l[i] == a[i] && l[j] == x);
                } else {
                    assert(l[j] == b[j - a.len() - 1]);
                    if i < a.len() {
                        assert(l[i] == a[i]);
                        lemma_order(a[i].1, n.key, l[j].1);
                    } else if i == a.len() {
                        assert(l[i] == x);
                    } else {
                        assert(l[i] == b[i - a.len() - 1]);
                    }
                }
            }
        },
    }
}

/// Whether the walk holds the listing, entry by entry.
pub open spec fn shows<K, V>(walk: Seq<(usize, &K, &V)>, list: Seq<(nat, K, V)>) -> bool {
    &&& walk.len() == list.len()
    &&& forall|i: int|
        0 <= i < walk.len() ==> (#[trigger] walk[i]).0 == list[i].0 && *walk[i].1 == list[i].1
            && *walk[i].2 == list[i].2
}

/// Appends the nodes of the tree to `out`, from first key to last.
fn walk<'a, K, V>(
    t: &'a Option<Box<Node<K, V>>>,
    level: usize,
    out: &mut Vec<(usize, &'a K, &'a V)>,
    Ghost(seen): Ghost<Seq<(nat, K, V)>>,
)
    requires
        level + depth(*t) <= usize::MAX,
        shows(old(out)@, seen),
    ensures
        shows(final(out)@, seen.add(listing(*t, level as nat))),
    decreases *t,
{
    proof {
        reveal_with_fuel(depth, 2);
        reveal_with_fuel(listing, 2);
    }
    match t {
        None => {
            proof {
                assert(seen.add(listing(*t, level as nat)) =~= seen);
            }
        },
        Some(n) => {
            walk(&n.left, level + 1, out, Ghost(seen));
            let ghost mid = seen.add(listing(n.left, (level + 1) as nat));
            out.push((level, &n.key, &n.value));
            let ghost mid2 = mid.push((level as nat, n.key, n.value));
            proof {
                assert(shows(out@, mid2));
            }
            walk(&n.right, level + 1, out, Ghost(mid2));
            proof {
                assert(mid2.add(listing(n.right, (level + 1) as nat)) =~= seen.add(
                    listing(*t, level as nat),
                ));
            }
        },
    }
}

/// An ordered map from keys to values.
pub struct AvlTree<K: Ord + Clone, V: Clone> {
    root: Option<Box<Node<K, V>>>,
}

impl<K: Ord + Clone, V: Clone> View for AvlTree<K, V> {
    type V = Map<K, V>;

    closed spec fn view(&self) -> Map<K, V> {
        entries(self.root)
    }
}

impl<K: Ord + Clone, V: Clone> AvlTree<K, V> {
    /// The tree is a balanced search tree whose nodes record their
    /// depths.
    pub closed spec fn wf(&self) -> bool {
        &&& measured(self.root)
        &&& balanced(self.root)
        &&& ordered(self.root)
        &&& weight(self.root) <= usize::MAX
    }

    /// The number of keys.
    pub closed spec fn len(&self) -> nat {
        weight(self.root)
    }

    /// The nodes from first key to last, each with its distance from the
    /// root.
    pub closed spec fn nodes(&self) -> Seq<(nat, K, V)> {
        listing(self.root, 0)
    }

    /// Whether the depths of the two subtrees of every node differ by
    /// one at most.
    pub closed spec fn even(&self) -> bool {
        balanced(self.root)
    }

    /// The number of nodes on the longest way down the tree.
    pub closed spec fn height(&self) -> nat {
        depth(self.root)
    }

    /// The nodes are the keys of the map, each once, from first key to
    /// last, each with its value and a distance from the root below the
    /// height of the tree.
    pub proof fn lemma_nodes(&self)
        requires
            key_laws::<K>(),
            self.wf(),
        ensures
            self.nodes().len() == self.len(),
            lists(self.nodes(), self@, 0, self.height()),
    {
        lemma_listing(self.root, 0);
    }

    /// A map without keys.
    pub fn new() -> (r: Self)
        ensures
            r.wf(),
            r@ == Map::<K, V>::empty(),
            r.len() == 0,
    {
        AvlTree { root: None }
    }

    /// Maps `key` to `value`, in place of the value it had if it was
    /// there.
    pub fn insert(&mut self, key: K, value: V)
        requires
            key_laws::<K>(),
            old(self).wf(),
            old(self).len() < usize::MAX,
        ensures
            final(self).wf(),
            final(self)@ == old(self)@.insert(key, value),
            old(self).len() <= final(self).len() <= old(self).len() + 1,
    {
        let r = insert_node(self.root.take(), key, value);
        self.root = Some(r);
    }

    /// The value that `key` is mapped to, if it is mapped.
    pub fn get(&self, key: &K) -> (r: Option<&V>)
        requires
            key_laws::<K>(),
            self.wf(),
        ensures
            match r {
                Some(v) => self@.contains_key(*key) && *v == self@[*key],
                None => !self@.contains_key(*key),
            },
    {
        let mut cur = &self.root;
        loop
            invariant
                key_laws::<K>(),
                ordered(*cur),
                entries(*cur).contains_key(*key) == entries(self.root).contains_key(*key),
                entries(*cur).contains_key(*key) ==> entries(*cur)[*key] == entries(self.root)[*key],
            decreases *cur,
        {
            match cur {
                None => {
                    return None;
                },
                Some(n) => {
                    proof {
                        lemma_order(*key, n.key, *key);
                        lemma_order(n.key, *key, *key);
                        lemma_at(*n, *key);
                        lemma_apart(*key, n.key, n.key);
                    }
                    match key.cmp(&n.key) {
                        Ordering::Less => {
                            cur = &n.left;
                        },
                        Ordering::Greater => {
                            cur = &n.right;
                        },
                        Ordering::Equal => {
                            return Some(&n.value);
                        },
                    }
                },
            }
        }
    }

    /// Takes `key` out of the map, if it is there.
    pub fn remove(&mut self, key: &K)
        requires
            key_laws::<K>(),
            old(self).wf(),
        ensures
            final(self).wf(),
            final(self)@ == old(self)@.remove(*key),
            final(self).len() <= old(self).len(),
    {
        let r = delete_node(self.root.take(), key);
        self.root = r;
    }

    /// The keys and values from first key to last, each with the
    /// distance of its node from the root.
    pub fn inorder(&self) -> (r: Vec<(usize, &K, &V)>)
        requires
            self.wf(),
        ensures
            shows(r@, self.nodes()),
    {
        let mut out: Vec<(usize, &K, &V)> = Vec::new();
        proof {
            lemma_depth_weight(self.root);
            assert(Seq::<(nat, K, V)>::empty().add(listing(self.root, 0)) =~= listing(
                self.root,
                0,
            ));
        }
        walk(&self.root, 0, &mut out, Ghost(Seq::empty()));
        out
    }

    /// Whether the tree is balanced, found by walking it.
    pub fn is_balanced(&self) -> (r: bool)
        requires
            self.len() <= usize::MAX,
        ensures
            r == self.even(),
    {
        check_balance(&self.root).0
    }

    /// A well-formed tree is balanced and has no more keys than can be
    /// counted, so that walking it finds it balanced.
    pub proof fn lemma_even(&self)
        requires
            self.wf(),
        ensures
            self.even(),
            self.len() <= usize::MAX,
    {
    }
}

} // verus!
