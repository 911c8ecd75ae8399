use std::cmp::Ordering;
use vstd::laws_cmp::obeys_cmp;
use vstd::laws_eq::obeys_concrete_eq;
use vstd::prelude::*;
use vstd::std_specs::cmp::{OrdSpec, PartialOrdSpec};

verus! {

/// A tree node. `balance` is -1 when the node leans left, +1 when it leans right.
///
/// The tree is searched with `key.cmp`: keys greater than a node's key live in
/// its left subtree, smaller keys in its right subtree.
pub struct Avl<K, V> {
    pub key: K,
    pub v: V,
    pub balance: i8,
    pub right: AvlTree<K, V>,
    pub left: AvlTree<K, V>,
}

pub type AvlTree<K, V> = Option<Box<Avl<K, V>>>;

/// The context of a focused subtree: the way back up to the root.
///
/// `LNode` records that the focus is the right child of a node whose left
/// subtree is `t`; `RNode` that it is the left child of a node whose right
/// subtree is `t`.
pub enum Path<K, V> {
    Top,
    LNode { t: AvlTree<K, V>, key: K, v: V, balance: i8, p: Box<Path<K, V>> },
    RNode { p: Box<Path<K, V>>, key: K, v: V, balance: i8, t: AvlTree<K, V> },
}

/// A focused subtree together with its context.
pub type Location<K, V> = (AvlTree<K, V>, Path<K, V>);

// ---------------------------------------------------------------------------
// The model
// ---------------------------------------------------------------------------

/// The key type's `cmp` is a total order whose equality is `==`.
pub open spec fn valid_key_order<K: Ord>() -> bool {
    obeys_cmp::<K>() && obeys_concrete_eq::<K>()
}

/// `a` comes strictly before `b` in the key order.
pub open spec fn key_lt<K: Ord>(a: K, b: K) -> bool {
    a.cmp_spec(&b) == Ordering::Less
}

/// Builds a node.
pub open spec fn node<K, V>(key: K, v: V, balance: i8, left: AvlTree<K, V>, right: AvlTree<K, V>) -> AvlTree<K, V> {
    Some(Box::new(Avl { key, v, balance, right, left }))
}

/// The key-value pairs stored in a tree.
pub open spec fn tree_map<K, V>(t: AvlTree<K, V>) -> Map<K, V>
    decreases t,
{
    match t {
        None => Map::empty(),
        Some(n) => tree_map(n.left).union_prefer_right(tree_map(n.right)).insert(n.key, n.v),
    }
}

/// Every key of the left subtree of a node is greater than the node's key and
/// every key of its right subtree is smaller, at every node.
pub open spec fn ordered<K: Ord, V>(t: AvlTree<K, V>) -> bool
    decreases t,
{
    match t {
        None => true,
        Some(n) => {
            &&& forall|k: K| #[trigger] tree_map(n.left).contains_key(k) ==> key_lt(n.key, k)
            &&& forall|k: K| #[trigger] tree_map(n.right).contains_key(k) ==> key_lt(k, n.key)
            &&& ordered(n.left)
            &&& ordered(n.right)
        },
    }
}

/// The tree obtained by putting `tr` back into the hole of the context `p`.
pub open spec fn plug<K, V>(p: Path<K, V>, tr: AvlTree<K, V>) -> AvlTree<K, V>
    decreases p,
{
    match p {
        Path::Top => tr,
        Path::LNode { t, key, v, balance, p } => plug(*p, node(key, v, balance, t, tr)),
        Path::RNode { p, key, v, balance, t } => plug(*p, node(key, v, balance, tr, t)),
    }
}

/// The whole tree that a location is a view of.
pub open spec fn whole<K, V>(loc: Location<K, V>) -> AvlTree<K, V> {
    plug(loc.1, loc.0)
}

/// Every turn of the context is the one a search for `key` takes.
pub open spec fn path_admits<K: Ord, V>(p: Path<K, V>, key: K) -> bool
    decreases p,
{
    match p {
        Path::Top => true,
        Path::LNode { key: k0, p, .. } => key_lt(key, k0) && path_admits(*p, key),
        Path::RNode { key: k0, p, .. } => key_lt(k0, key) && path_admits(*p, key),
    }
}

/// The subtree at which a search for `key` that starts at `t` stops: empty,
/// or rooted at a node whose key compares equal to `key`.
pub open spec fn search_end<K: Ord, V>(t: AvlTree<K, V>, key: K) -> AvlTree<K, V>
    decreases t,
{
    match t {
        None => None,
        Some(n) => match n.key.cmp_spec(&key) {
            Ordering::Less => search_end(n.left, key),
            Ordering::Equal => t,
            Ordering::Greater => search_end(n.right, key),
        },
    }
}

/// The location one step down to the right of the focused node.
pub open spec fn right_of<K, V>(loc: Location<K, V>) -> Location<K, V> {
    let n = loc.0->0;
    (n.right, Path::LNode { t: n.left, key: n.key, v: n.v, balance: n.balance, p: Box::new(loc.1) })
}

/// The location one step down to the left of the focused node.
pub open spec fn left_of<K, V>(loc: Location<K, V>) -> Location<K, V> {
    let n = loc.0->0;
    (n.left, Path::RNode { p: Box::new(loc.1), key: n.key, v: n.v, balance: n.balance, t: n.right })
}

/// The location at which a search for `key` that starts at `loc` stops:
/// it goes left past keys smaller than `key`, right past greater ones, and
/// stops at an empty subtree or at an equal key.
pub open spec fn search_loc<K: Ord, V>(loc: Location<K, V>, key: K) -> Location<K, V>
    decreases loc.0,
{
    match loc.0 {
        None => loc,
        Some(n) => match n.key.cmp_spec(&key) {
            Ordering::Less => search_loc(left_of(loc), key),
            Ordering::Equal => loc,
            Ordering::Greater => search_loc(right_of(loc), key),
        },
    }
}

/// A search for `key` from the root of `t` finds a node.
pub open spec fn search_finds<K: Ord, V>(t: AvlTree<K, V>, key: K) -> bool {
    search_end(t, key) is Some
}

/// The tree with a new leaf for `key` where a search for `key` ends.
pub open spec fn bst_insert<K: Ord, V>(t: AvlTree<K, V>, key: K, v: V) -> AvlTree<K, V>
    decreases t,
{
    match t {
        None => node(key, v, 0, None, None),
        Some(n) => match n.key.cmp_spec(&key) {
            Ordering::Less => node(n.key, n.v, n.balance, bst_insert(n.left, key, v), n.right),
            Ordering::Equal => t,
            Ordering::Greater => node(n.key, n.v, n.balance, n.left, bst_insert(n.right, key, v)),
        },
    }
}

// ---------------------------------------------------------------------------
// Facts about the key order
// ---------------------------------------------------------------------------

/// What a valid key order gives: `cmp` is antisymmetric, transitive and its
/// `Equal` is `==`.
pub proof fn lemma_key_order<K: Ord>()
    requires
        valid_key_order::<K>(),
    ensures
        K::obeys_cmp_spec(),
        forall|a: K, b: K| #[trigger] a.cmp_spec(&b) == Ordering::Equal <==> a == b,
        forall|a: K, b: K| #[trigger] a.cmp_spec(&b) == Ordering::Less <==> b.cmp_spec(&a) == Ordering::Greater,
        forall|a: K, b: K, c: K|
            #[trigger] a.cmp_spec(&b) == Ordering::Less && #[trigger] b.cmp_spec(&c) == Ordering::Less
                ==> a.cmp_spec(&c) == Ordering::Less,
{
    reveal(vstd::laws_cmp::obeys_cmp_partial_ord);
    reveal(vstd::laws_cmp::obeys_cmp_ord);
    reveal(vstd::laws_cmp::obeys_partial_cmp_spec_properties);
    reveal(obeys_concrete_eq);
    assert forall|a: K, b: K| #[trigger] a.cmp_spec(&b) == Ordering::Equal <==> a == b by {
        assert(a.partial_cmp_spec(&b) == Some(a.cmp_spec(&b)));
    }
    assert forall|a: K, b: K| #[trigger] a.cmp_spec(&b) == Ordering::Less <==> b.cmp_spec(&a) == Ordering::Greater by {
        assert(a.partial_cmp_spec(&b) == Some(a.cmp_spec(&b)));
        assert(b.partial_cmp_spec(&a) == Some(b.cmp_spec(&a)));
    }
    assert forall|a: K, b: K, c: K|
        #[trigger] a.cmp_spec(&b) == Ordering::Less && #[trigger] b.cmp_spec(&c) == Ordering::Less
            implies a.cmp_spec(&c) == Ordering::Less by {
        assert(a.partial_cmp_spec(&b) == Some(a.cmp_spec(&b)));
        assert(b.partial_cmp_spec(&c) == Some(b.cmp_spec(&c)));
        assert(a.partial_cmp_spec(&c) == Some(a.cmp_spec(&c)));
    }
}


/// Under a valid key order, a search that finds a node finds one whose key is
/// the searched key, and on an ordered tree it finds one exactly when the key
/// is stored, with the stored value.
pub proof fn lemma_search_end<K: Ord, V>(t: AvlTree<K, V>, key: K)
    requires
        valid_key_order::<K>(),
    ensures
        search_end(t, key) matches Some(n) ==> n.key == key,
        ordered(t) ==> (search_finds(t, key) <==> tree_map(t).contains_key(key)),
        ordered(t) && search_finds(t, key) ==> tree_map(t)[key] == search_end(t, key)->0.v,
    decreases t,
{
    lemma_key_order::<K>();
    match t {
        None => {},
        Some(n) => {
            lemma_search_end(n.left, key);
            lemma_search_end(n.right, key);
            if ordered(t) {
                if n.key.cmp_spec(&key) == Ordering::Less {
                    if tree_map(n.right).contains_key(key) {
                        assert(key_lt(key, n.key));
                    }
                } else if n.key.cmp_spec(&key) == Ordering::Greater {
                    if tree_map(n.left).contains_key(key) {
                        assert(key_lt(n.key, key));
                    }
                }
            }
        },
    }
}

/// Putting a subtree back into a context whose turns all follow the search
/// for `key`: in an ordered result the subtree is ordered, and `key` is stored
/// in the whole tree exactly when it is stored in the subtree, with the same
/// value.
pub proof fn lemma_plug_confined<K: Ord, V>(p: Path<K, V>, tr: AvlTree<K, V>, key: K)
    requires
        valid_key_order::<K>(),
        ordered(plug(p, tr)),
        path_admits(p, key),
    ensures
        ordered(tr),
        tree_map(plug(p, tr)).contains_key(key) <==> tree_map(tr).contains_key(key),
        tree_map(tr).contains_key(key) ==> tree_map(plug(p, tr))[key] == tree_map(tr)[key],
    decreases p,
{
    lemma_key_order::<K>();
    match p {
        Path::Top => {},
        Path::LNode { t, key: k0, v, balance, p: pp } => {
            lemma_plug_confined(*pp, node(k0, v, balance, t, tr), key);
            if tree_map(t).contains_key(key) {
                assert(key_lt(k0, key));
            }
            assert(key.cmp_spec(&key) == Ordering::Equal);
        },
        Path::RNode { p: pp, key: k0, v, balance, t } => {
            lemma_plug_confined(*pp, node(k0, v, balance, tr, t), key);
            if tree_map(t).contains_key(key) {
                assert(key_lt(key, k0));
            }
            assert(key.cmp_spec(&key) == Ordering::Equal);
        },
    }
}

/// Inserting into the subtree at the end of a search path and putting it
/// back is inserting into the whole tree.
pub proof fn lemma_plug_insert<K: Ord, V>(p: Path<K, V>, tr: AvlTree<K, V>, key: K, v: V)
    requires
        valid_key_order::<K>(),
        path_admits(p, key),
    ensures
        plug(p, bst_insert(tr, key, v)) == bst_insert(plug(p, tr), key, v),
    decreases p,
{
    lemma_key_order::<K>();
    match p {
        Path::Top => {},
        Path::LNode { t, key: k0, v: v0, balance, p: pp } => {
            lemma_plug_insert(*pp, node(k0, v0, balance, t, tr), key, v);
            assert(k0.cmp_spec(&key) == Ordering::Greater);
        },
        Path::RNode { p: pp, key: k0, v: v0, balance, t } => {
            lemma_plug_insert(*pp, node(k0, v0, balance, tr, t), key, v);
            assert(k0.cmp_spec(&key) == Ordering::Less);
        },
    }
}

/// Inserting an absent key into an ordered tree keeps it ordered and adds
/// exactly that key with that value.
pub proof fn lemma_insert_ordered<K: Ord, V>(t: AvlTree<K, V>, key: K, v: V)
    requires
        valid_key_order::<K>(),
        ordered(t),
        !tree_map(t).contains_key(key),
    ensures
        ordered(bst_insert(t, key, v)),
        tree_map(bst_insert(t, key, v)) == tree_map(t).insert(key, v),
    decreases t,
{
    lemma_key_order::<K>();
    match t {
        None => {
            assert(tree_map(bst_insert(t, key, v)) =~= tree_map(t).insert(key, v));
        },
        Some(n) => {
            if n.key.cmp_spec(&key) == Ordering::Less {
                lemma_insert_ordered(n.left, key, v);
                if tree_map(n.right).contains_key(key) {
                    assert(key_lt(key, n.key));
                }
                assert(tree_map(bst_insert(t, key, v)) =~= tree_map(t).insert(key, v));
            } else if n.key.cmp_spec(&key) == Ordering::Greater {
                lemma_insert_ordered(n.right, key, v);
                if tree_map(n.left).contains_key(key) {
                    assert(key_lt(n.key, key));
                }
                assert(tree_map(bst_insert(t, key, v)) =~= tree_map(t).insert(key, v));
            } else {
                assert(n.key == key);
            }
        },
    }
}


/// Reading after writing: once `key` is inserted into an ordered tree that
/// lacks it, a search for `key` finds it holding `v`, and a search for any
/// other key finds exactly what it found before.
pub proof fn lemma_insert_then_search<K: Ord, V>(t: AvlTree<K, V>, key: K, v: V, other: K)
    requires
        valid_key_order::<K>(),
        ordered(t),
        !tree_map(t).contains_key(key),
    ensures
        search_finds(bst_insert(t, key, v), key),
        search_end(bst_insert(t, key, v), key)->0.v == v,
        other != key ==> search_finds(bst_insert(t, key, v), other) == search_finds(t, other),
{
    lemma_insert_ordered(t, key, v);
    lemma_search_end(bst_insert(t, key, v), key);
    lemma_search_end(bst_insert(t, key, v), other);
    lemma_search_end(t, other);
}

/// A search for a key that the tree lacks, after inserting it, ends at the
/// new leaf, whatever the tree.
pub proof fn lemma_insert_leaf<K: Ord, V>(t: AvlTree<K, V>, key: K, v: V)
    requires
        valid_key_order::<K>(),
        !search_finds(t, key),
    ensures
        search_end(bst_insert(t, key, v), key) == node(key, v, 0, None, None),
    decreases t,
{
    lemma_key_order::<K>();
    assert(key.cmp_spec(&key) == Ordering::Equal);
    if let Some(n) = t {
        if n.key.cmp_spec(&key) == Ordering::Less {
            lemma_insert_leaf(n.left, key, v);
        } else if n.key.cmp_spec(&key) == Ordering::Greater {
            lemma_insert_leaf(n.right, key, v);
        }
    }
}

/// The tree built by inserting the pairs one after another into the empty
/// tree.
pub open spec fn inserts<K: Ord, V>(pairs: Seq<(K, V)>) -> AvlTree<K, V>
    decreases pairs.len(),
{
    if pairs.len() == 0 {
        None
    } else {
        bst_insert(inserts(pairs.drop_last()), pairs.last().0, pairs.last().1)
    }
}

/// No key occurs twice among the pairs.
pub open spec fn distinct_keys<K, V>(pairs: Seq<(K, V)>) -> bool {
    forall|i: int, j: int| 0 <= i < j < pairs.len() ==> (#[trigger] pairs[i]).0 != (#[trigger] pairs[j]).0
}

/// Inserting pairs with distinct keys one after another into the empty tree
/// gives an ordered tree that holds exactly those pairs; a search for each
/// key finds it with its value, and a search for the last key inserted ends
/// at a bare leaf.
pub proof fn lemma_inserts<K: Ord, V>(pairs: Seq<(K, V)>)
    requires
        valid_key_order::<K>(),
        distinct_keys(pairs),
    ensures
        ordered(inserts(pairs)),
        forall|k: K| #[trigger] tree_map(inserts(pairs)).contains_key(k) <==> exists|i: int| 0 <= i < pairs.len() && (#[trigger] pairs[i]).0 == k,
        forall|i: int| 0 <= i < pairs.len() ==> {
            &&& search_finds(inserts(pairs), (#[trigger] pairs[i]).0)
            &&& search_end(inserts(pairs), pairs[i].0)->0.key == pairs[i].0
            &&& search_end(inserts(pairs), pairs[i].0)->0.v == pairs[i].1
        },
        pairs.len() > 0 ==> search_end(inserts(pairs), pairs.last().0) == node(pairs.last().0, pairs.last().1, 0, None, None),
    decreases pairs.len(),
{
    if pairs.len() > 0 {
        let pre = pairs.drop_last();
        let (k, v) = pairs.last();
        assert forall|i: int, j: int| 0 <= i < j < pre.len() implies (#[trigger] pre[i]).0 != (#[trigger] pre[j]).0 by {
            assert(pre[i] == pairs[i]);
            assert(pre[j] == pairs[j]);
        }
        lemma_inserts(pre);
        let t0 = inserts(pre);
        let t = inserts(pairs);
        assert(!tree_map(t0).contains_key(k)) by {
            if tree_map(t0).contains_key(k) {
                let i = choose|i: int| 0 <= i < pre.len() && (#[trigger] pre[i]).0 == k;
                assert(pairs[i] == pre[i]);
                assert(pairs[i].0 != pairs[pairs.len() - 1].0);
            }
        }
        lemma_search_end(t0, k);
        lemma_insert_ordered(t0, k, v);
        lemma_insert_leaf(t0, k, v);
        assert forall|key: K| #[trigger] tree_map(t).contains_key(key) <==> exists|i: int| 0 <= i < pairs.len() && (#[trigger] pairs[i]).0 == key by {
            if tree_map(t).contains_key(key) && key != k {
                let i = choose|i: int| 0 <= i < pre.len() && (#[trigger] pre[i]).0 == key;
                assert(pairs[i] == pre[i]);
            }
            if key == k {
                assert(pairs[pairs.len() - 1].0 == key);
            }
            if exists|i: int| 0 <= i < pairs.len() && (#[trigger] pairs[i]).0 == key {
                let i = choose|i: int| 0 <= i < pairs.len() && (#[trigger] pairs[i]).0 == key;
                if i < pre.len() {
                    assert(pre[i] == pairs[i]);
                }
            }
        }
        assert forall|i: int| 0 <= i < pairs.len() implies {
            &&& search_finds(t, (#[trigger] pairs[i]).0)
            &&& search_end(t, pairs[i].0)->0.key == pairs[i].0
            &&& search_end(t, pairs[i].0)->0.v == pairs[i].1
        } by {
            lemma_search_end(t, pairs[i].0);
            if i < pre.len() {
                assert(pre[i] == pairs[i]);
                assert(pairs[i].0 != k);
                lemma_search_end(t0, pre[i].0);
                assert(tree_map(t0).contains_key(pre[i].0));
                assert(tree_map(t0)[pre[i].0] == pre[i].1);
                assert(tree_map(t)[pairs[i].0] == pairs[i].1);
            } else {
                assert(pairs[i] == pairs.last());
                assert(tree_map(t)[k] == v);
            }
        }
    }
}

// ---------------------------------------------------------------------------
// The zipper
// ---------------------------------------------------------------------------

/// Rebuilds the whole tree from a location.
pub fn zip<K, V>(lc: Location<K, V>) -> (r: AvlTree<K, V>)
    ensures
        r == whole(lc),
    decreases lc.1,
{
    match lc {
        (tr, Path::Top) => tr,
        (tr, Path::LNode { t, key, v, balance, p }) => zip(
            (Some(Box::new(Avl { key: key, v: v, balance: balance, right: tr, left: t })), *p),
        ),
        (tr, Path::RNode { t, key, v, balance, p }) => zip(
            (Some(Box::new(Avl { key: key, v: v, balance: balance, right: t, left: tr })), *p),
        ),
    }
}

/// Whether the focused subtree is empty.
pub fn is_null<K, V>(loc: &Location<K, V>) -> (r: bool)
    ensures
        r == (loc.0 is None),
{
    match loc.0 {
        None => true,
        _ => false,
    }
}

/// Compares the key at the focus with `key`: what the key type's `cmp`
/// answers, which is stated where that `cmp` follows its specification.
pub fn cmp<K: Ord, V>(key: &K, loc: &Location<K, V>) -> (r: Ordering)
    requires
        loc.0 is Some,
    ensures
        K::obeys_cmp_spec() ==> r == loc.0->0.key.cmp_spec(key),
{
    match &loc.0 {
        Some(t) => t.key.cmp(key),
        None => {
            proof {
                assert(false);
            }
            Ordering::Equal
        },
    }
}

/// Moves the focus to the right child of the focused node.
pub fn go_right<K, V>(loc: Location<K, V>) -> (r: Location<K, V>)
    requires
        loc.0 is Some,
    ensures
        r == right_of(loc),
        whole(r) == whole(loc),
{
    match loc {
        (Some(t), p) => {
            let t_ = *t;
            let Avl { key, v, balance, right, left } = t_;
            (right, Path::LNode { t: left, key: key, v: v, balance: balance, p: Box::new(p) })
        },
        (None, p) => {
            proof {
                assert(false);
            }
            (None, p)
        },
    }
}

/// Moves the focus to the left child of the focused node.
pub fn go_left<K, V>(loc: Location<K, V>) -> (r: Location<K, V>)
    requires
        loc.0 is Some,
    ensures
        r == left_of(loc),
        whole(r) == whole(loc),
{
    match loc {
        (Some(t), p) => {
            let t_ = *t;
            let Avl { key, v, balance, right, left } = t_;
            (left, Path::RNode { p: Box::new(p), key: key, v: v, balance: balance, t: right })
        },
        (None, p) => {
            proof {
                assert(false);
            }
            (None, p)
        },
    }
}

/// Moves the focus down to where `key` is, or would be, stored.
///
/// The whole tree is unchanged, whatever the key type. Where the key's
/// order is lawful, the new focus is the subtree at which the search ends,
/// and on an ordered tree whose context admits `key` it is non-empty exactly
/// when `key` is stored in the whole tree.
pub fn search<K: Ord, V>(key: &K, loc: Location<K, V>) -> (r: Location<K, V>)
    ensures
        whole(r) == whole(loc),
        valid_key_order::<K>() ==> {
            &&& r == search_loc(loc, *key)
            &&& r.0 == search_end(loc.0, *key)
            &&& r.0 matches Some(n) ==> n.key == *key
            &&& path_admits(loc.1, *key) ==> path_admits(r.1, *key)
            &&& path_admits(loc.1, *key) && ordered(whole(loc)) ==> (r.0 is Some
                <==> tree_map(whole(loc)).contains_key(*key))
        },
    decreases loc.0,
{
    proof {
        if valid_key_order::<K>() {
            lemma_key_order::<K>();
            lemma_search_end(loc.0, *key);
        }
    }
    if is_null(&loc) {
        proof {
            if valid_key_order::<K>() && path_admits(loc.1, *key) && ordered(whole(loc)) {
                lemma_plug_confined(loc.1, loc.0, *key);
            }
        }
        loc
    } else {
        match cmp(key, &loc) {
            Ordering::Less => {
                let next = go_left(loc);
                let r = search(key, next);
                proof {
                    if valid_key_order::<K>() && path_admits(loc.1, *key) && ordered(whole(loc)) {
                        lemma_plug_confined(loc.1, loc.0, *key);
                        lemma_plug_confined(next.1, next.0, *key);
                    }
                }
                r
            },
            Ordering::Equal => {
                proof {
                    if valid_key_order::<K>() && path_admits(loc.1, *key) && ordered(whole(loc)) {
                        lemma_plug_confined(loc.1, loc.0, *key);
                    }
                }
                loc
            },
            Ordering::Greater => {
                let next = go_right(loc);
                let r = search(key, next);
                proof {
                    if valid_key_order::<K>() && path_admits(loc.1, *key) && ordered(whole(loc)) {
                        lemma_plug_confined(loc.1, loc.0, *key);
                        lemma_plug_confined(next.1, next.0, *key);
                    }
                }
                r
            },
        }
    }
}

/// Adds `key` with value `v` as a new leaf where a search for `key` ends.
///
/// A key that the search finds is refused (the call panics), so callers must
/// not insert one; this is stated where the key's order is lawful, the only
/// case in which what the search finds can be stated. For a key type whose
/// order is not lawful nothing is claimed of the result, and a found key
/// leaves the tree as it was.
pub fn insert<K: Ord, V>(key: K, v: V, t: AvlTree<K, V>) -> (r: AvlTree<K, V>)
    requires
        valid_key_order::<K>() ==> !search_finds(t, key),
    ensures
        valid_key_order::<K>() ==> r == bst_insert(t, key, v),
        valid_key_order::<K>() && ordered(t) ==> ordered(r) && tree_map(r) == tree_map(t).insert(key, v),
{
    proof {
        if valid_key_order::<K>() {
            lemma_search_end(t, key);
            if ordered(t) {
                lemma_insert_ordered(t, key, v);
            }
        }
    }
    match search(&key, (t, Path::Top)) {
        (None, p) => {
            proof {
                if valid_key_order::<K>() {
                    lemma_plug_insert(p, None, key, v);
                }
            }
            zip((Some(Box::new(Avl { key: key, v: v, balance: 0, right: None, left: None })), p))
        },
        (Some(n), p) => {
            proof {
                assert(!valid_key_order::<K>());
            }
            zip((Some(n), p))
        },
    }
}


// ---------------------------------------------------------------------------
// Rotations
// ---------------------------------------------------------------------------

/// The node that a right rotation of `t` produces.
pub open spec fn right_rotation<K, V>(t: Avl<K, V>) -> Avl<K, V> {
    let l = t.left->0;
    Avl {
        key: l.key,
        v: l.v,
        balance: if l.balance == -1 { 0i8 } else { 1i8 },
        left: l.left,
        right: node(t.key, t.v, if l.balance == -1 { 0i8 } else { -1i8 }, l.right, t.right),
    }
}

/// The node that a left rotation of `t` produces.
pub open spec fn left_rotation<K, V>(t: Avl<K, V>) -> Avl<K, V> {
    let rc = t.right->0;
    Avl {
        key: rc.key,
        v: rc.v,
        balance: if rc.balance == 1 { 0i8 } else { -1i8 },
        right: rc.right,
        left: node(t.key, t.v, if rc.balance == 1 { 0i8 } else { 1i8 }, t.left, rc.left),
    }
}

/// A single right rotation: the left child becomes the root and the old root
/// its right child, taking over the left child's right subtree.
///
/// The balances are adjusted for a left child that leans left (both become
/// even) or is even (the old root leans left, the new root leans right); a
/// missing left child, or one that leans right, is refused (the call panics).
pub fn rotate_right<K, V>(t: Box<Avl<K, V>>) -> (r: Box<Avl<K, V>>)
    requires
        t.left is Some,
        t.left->0.balance == -1 || t.left->0.balance == 0,
    ensures
        *r == right_rotation(*t),
{
    let Avl { key, v, balance, right, left } = *t;
    let l = match left {
        Some(l) => l,
        None => {
            proof {
                assert(false);
            }
            return Box::new(Avl { key, v, balance, right, left: None });
        },
    };
    let Avl { key: lkey, v: lv, balance: lbalance, right: lr, left: ll } = *l;
    let (tb, lb): (i8, i8) = if lbalance == -1 {
        (0, 0)
    } else {
        (-1, 1)
    };
    let t2 = Box::new(Avl { key, v, balance: tb, right, left: lr });
    Box::new(Avl { key: lkey, v: lv, balance: lb, right: Some(t2), left: ll })
}

/// A single left rotation: the right child becomes the root and the old root
/// its left child, taking over the right child's left subtree.
///
/// The balances are adjusted for a right child that leans right (both become
/// even) or is even (the old root leans right, the new root leans left); a
/// missing right child, or one that leans left, is refused (the call panics).
pub fn rotate_left<K, V>(t: Box<Avl<K, V>>) -> (r: Box<Avl<K, V>>)
    requires
        t.right is Some,
        t.right->0.balance == 1 || t.right->0.balance == 0,
    ensures
        *r == left_rotation(*t),
{
    let Avl { key, v, balance, right, left } = *t;
    let rc = match right {
        Some(rc) => rc,
        None => {
            proof {
                assert(false);
            }
            return Box::new(Avl { key, v, balance, right: None, left });
        },
    };
    let Avl { key: rkey, v: rv, balance: rbalance, right: rr, left: rl } = *rc;
    let (tb, rb): (i8, i8) = if rbalance == 1 {
        (0, 0)
    } else {
        (1, -1)
    };
    let t2 = Box::new(Avl { key, v, balance: tb, right: rl, left });
    Box::new(Avl { key: rkey, v: rv, balance: rb, right: rr, left: Some(t2) })
}

/// How a right rotation moves nodes and balances: the left child `l` rises
/// to the root with its left subtree, the old root becomes its right child
/// over `l`'s right subtree and the old right subtree. When `l` leaned left
/// both end even; when `l` was even the new root leans right and the old
/// root leans left.
pub proof fn lemma_right_rotation_shape<K, V>(t: Avl<K, V>)
    requires
        t.left is Some,
    ensures
        ({
            let l = t.left->0;
            let r = right_rotation(t);
            &&& r.key == l.key && r.v == l.v && r.left == l.left
            &&& r.right matches Some(n) && n.key == t.key && n.v == t.v && n.left == l.right && n.right == t.right
            &&& l.balance == -1 ==> r.balance == 0 && r.right->0.balance == 0
            &&& l.balance == 0 ==> r.balance == 1 && r.right->0.balance == -1
        }),
{
}

/// How a left rotation moves nodes and balances: the right child `rc` rises
/// to the root with its right subtree, the old root becomes its left child
/// over the old left subtree and `rc`'s left subtree. When `rc` leaned right
/// both end even; when `rc` was even the new root leans left and the old root
/// leans right.
pub proof fn lemma_left_rotation_shape<K, V>(t: Avl<K, V>)
    requires
        t.right is Some,
    ensures
        ({
            let rc = t.right->0;
            let r = left_rotation(t);
            &&& r.key == rc.key && r.v == rc.v && r.right == rc.right
            &&& r.left matches Some(n) && n.key == t.key && n.v == t.v && n.left == t.left && n.right == rc.left
            &&& rc.balance == 1 ==> r.balance == 0 && r.left->0.balance == 0
            &&& rc.balance == 0 ==> r.balance == -1 && r.left->0.balance == 1
        }),
{
}

/// A right rotation keeps an ordered tree ordered and keeps its pairs.
pub proof fn lemma_right_rotation_preserves<K: Ord, V>(t: Avl<K, V>)
    requires
        valid_key_order::<K>(),
        t.left is Some,
        ordered(Some(Box::new(t))),
    ensures
        ordered(Some(Box::new(right_rotation(t)))),
        tree_map(Some(Box::new(right_rotation(t)))) == tree_map(Some(Box::new(t))),
{
    let l = t.left->0;
    let b1: i8 = if l.balance == -1 { 0i8 } else { 1i8 };
    let b2: i8 = if l.balance == -1 { 0i8 } else { -1i8 };
    lemma_rotate(t.key, t.v, t.balance, l, t.right);
    assert(ordered(node(l.key, l.v, b1, l.left, node(t.key, t.v, b2, l.right, t.right))));
    assert(tree_map(node(l.key, l.v, b1, l.left, node(t.key, t.v, b2, l.right, t.right)))
        == tree_map(node(t.key, t.v, t.balance, Some(l), t.right)));
}

/// A left rotation keeps an ordered tree ordered and keeps its pairs.
pub proof fn lemma_left_rotation_preserves<K: Ord, V>(t: Avl<K, V>)
    requires
        valid_key_order::<K>(),
        t.right is Some,
        ordered(Some(Box::new(t))),
    ensures
        ordered(Some(Box::new(left_rotation(t)))),
        tree_map(Some(Box::new(left_rotation(t)))) == tree_map(Some(Box::new(t))),
{
    let rc = t.right->0;
    let b1: i8 = if rc.balance == 1 { 0i8 } else { -1i8 };
    let b2: i8 = if rc.balance == 1 { 0i8 } else { 1i8 };
    let inner = Box::new(Avl { key: t.key, v: t.v, balance: b2, right: rc.left, left: t.left });
    lemma_rotate(rc.key, rc.v, b1, inner, rc.right);
    assert(ordered(node(inner.key, inner.v, t.balance, inner.left, node(rc.key, rc.v, rc.balance, inner.right, rc.right))));
    assert(ordered(node(rc.key, rc.v, b1, Some(inner), rc.right)));
    assert(tree_map(node(inner.key, inner.v, t.balance, inner.left, node(rc.key, rc.v, rc.balance, inner.right, rc.right)))
        == tree_map(node(rc.key, rc.v, b1, Some(inner), rc.right)));
}

/// Two trees have the same nodes in the same places, whatever their balances.
pub open spec fn same_shape<K, V>(a: AvlTree<K, V>, b: AvlTree<K, V>) -> bool
    decreases a,
{
    match (a, b) {
        (None, None) => true,
        (Some(x), Some(y)) => x.key == y.key && x.v == y.v && same_shape(x.left, y.left) && same_shape(
            x.right,
            y.right,
        ),
        _ => false,
    }
}

/// Every tree has its own shape.
pub proof fn lemma_same_shape_refl<K, V>(t: AvlTree<K, V>)
    ensures
        same_shape(t, t),
    decreases t,
{
    if let Some(n) = t {
        lemma_same_shape_refl(n.left);
        lemma_same_shape_refl(n.right);
    }
}

/// A left rotation undoes a right rotation of a node whose left child leans
/// left, up to the balances; and a right rotation undoes a left rotation of a
/// node whose right child leans right.
pub proof fn lemma_rotations_undo<K, V>(t: Avl<K, V>)
    ensures
        t.left matches Some(l) && l.balance == -1 ==> same_shape(
            Some(Box::new(left_rotation(right_rotation(t)))),
            Some(Box::new(t)),
        ),
        t.right matches Some(rc) && rc.balance == 1 ==> same_shape(
            Some(Box::new(right_rotation(left_rotation(t)))),
            Some(Box::new(t)),
        ),
{
    reveal_with_fuel(same_shape, 3);
    lemma_same_shape_refl(t.left);
    lemma_same_shape_refl(t.right);
    if let Some(l) = t.left {
        lemma_same_shape_refl(l.left);
        lemma_same_shape_refl(l.right);
        let a = left_rotation(right_rotation(t));
        assert(a.left == node(l.key, l.v, 1i8, l.left, l.right));
        assert(same_shape(a.left, t.left));
    }
    if let Some(rc) = t.right {
        lemma_same_shape_refl(rc.left);
        lemma_same_shape_refl(rc.right);
        let a = right_rotation(left_rotation(t));
        assert(a.right == node(rc.key, rc.v, -1i8, rc.left, rc.right));
        assert(same_shape(a.right, t.right));
    }
}

/// The two shapes a rotation moves between hold the same pairs, and one is
/// ordered exactly when the other is:
/// `(k, v)` over a left child `l` and right subtree `tr`, and `l`'s key over
/// `l.left` and a node `(k, v)` over `l.right` and `tr`.
pub proof fn lemma_rotate<K: Ord, V>(k: K, v: V, b: i8, l: Box<Avl<K, V>>, tr: AvlTree<K, V>)
    requires
        valid_key_order::<K>(),
    ensures
        forall|b1: i8, b2: i8|
            ordered(node(k, v, b, Some(l), tr)) <==> #[trigger] ordered(
                node(l.key, l.v, b1, l.left, node(k, v, b2, l.right, tr)),
            ),
        forall|b1: i8, b2: i8|
            ordered(node(k, v, b, Some(l), tr)) ==> #[trigger] tree_map(
                node(l.key, l.v, b1, l.left, node(k, v, b2, l.right, tr)),
            ) == tree_map(node(k, v, b, Some(l), tr)),
{
    lemma_key_order::<K>();
    assert forall|b1: i8, b2: i8|
        ordered(node(k, v, b, Some(l), tr)) <==> #[trigger] ordered(
            node(l.key, l.v, b1, l.left, node(k, v, b2, l.right, tr)),
        ) by {
        let before = node(k, v, b, Some(l), tr);
        let inner = node(k, v, b2, l.right, tr);
        let after = node(l.key, l.v, b1, l.left, inner);
        let lt = Some(l);
        assert(tree_map(lt) == tree_map(l.left).union_prefer_right(tree_map(l.right)).insert(l.key, l.v));
        assert(tree_map(inner) == tree_map(l.right).union_prefer_right(tree_map(tr)).insert(k, v));
        assert(ordered(lt) == {
            &&& forall|x: K| #[trigger] tree_map(l.left).contains_key(x) ==> key_lt(l.key, x)
            &&& forall|x: K| #[trigger] tree_map(l.right).contains_key(x) ==> key_lt(x, l.key)
            &&& ordered(l.left)
            &&& ordered(l.right)
        });
        assert(ordered(inner) == {
            &&& forall|x: K| #[trigger] tree_map(l.right).contains_key(x) ==> key_lt(k, x)
            &&& forall|x: K| #[trigger] tree_map(tr).contains_key(x) ==> key_lt(x, k)
            &&& ordered(l.right)
            &&& ordered(tr)
        });
        if ordered(before) {
            assert(tree_map(lt).contains_key(l.key));
            assert(key_lt(k, l.key));
            assert forall|x: K| #[trigger] tree_map(inner).contains_key(x) implies key_lt(x, l.key) by {
                if tree_map(tr).contains_key(x) {
                    assert(key_lt(x, k));
                } else if x != k {
                    assert(tree_map(l.right).contains_key(x));
                }
            }
            assert forall|x: K| #[trigger] tree_map(l.right).contains_key(x) implies key_lt(k, x) by {
                assert(tree_map(lt).contains_key(x));
            }
            assert(ordered(inner));
            assert(ordered(after));
        }
        if ordered(after) {
            assert(ordered(inner));
            assert(tree_map(inner).contains_key(k));
            assert(key_lt(k, l.key));
            assert forall|x: K| #[trigger] tree_map(lt).contains_key(x) implies key_lt(k, x) by {
                if tree_map(l.left).contains_key(x) {
                    assert(key_lt(l.key, x));
                } else if x != l.key {
                    assert(tree_map(l.right).contains_key(x));
                }
            }
            assert forall|x: K| #[trigger] tree_map(l.right).contains_key(x) implies key_lt(x, l.key) by {
                assert(tree_map(inner).contains_key(x));
            }
            assert(ordered(lt));
            assert(ordered(before));
        }
    }
    assert forall|b1: i8, b2: i8|
        ordered(node(k, v, b, Some(l), tr)) implies #[trigger] tree_map(
            node(l.key, l.v, b1, l.left, node(k, v, b2, l.right, tr)),
        ) == tree_map(node(k, v, b, Some(l), tr)) by {
        let before = node(k, v, b, Some(l), tr);
        let inner = node(k, v, b2, l.right, tr);
        let after = node(l.key, l.v, b1, l.left, inner);
        let lt = Some(l);
        assert(tree_map(lt) == tree_map(l.left).union_prefer_right(tree_map(l.right)).insert(l.key, l.v));
        assert(tree_map(inner) == tree_map(l.right).union_prefer_right(tree_map(tr)).insert(k, v));
        assert(tree_map(lt).contains_key(l.key));
        assert(key_lt(k, l.key));
        assert(k.cmp_spec(&k) == Ordering::Equal);
        assert(l.key.cmp_spec(&l.key) == Ordering::Equal);
        assert forall|x: K| #[trigger] tree_map(tr).contains_key(x) implies !tree_map(lt).contains_key(x) && x != k by {
            assert(key_lt(x, k));
            if tree_map(lt).contains_key(x) {
                assert(key_lt(k, x));
            }
        }
        assert(ordered(lt));
        assert(ordered(lt) ==> forall|x: K| #[trigger] tree_map(l.left).contains_key(x) ==> key_lt(l.key, x));
        assert(ordered(lt) ==> forall|x: K| #[trigger] tree_map(l.right).contains_key(x) ==> key_lt(x, l.key));
        assert forall|x: K| #[trigger] tree_map(l.left).contains_key(x) implies !tree_map(l.right).contains_key(x) by {
            assert(key_lt(l.key, x));
            if tree_map(l.right).contains_key(x) {
                assert(key_lt(x, l.key));
            }
        }
        assert(tree_map(after) =~= tree_map(before));
    }
}

} // verus!
