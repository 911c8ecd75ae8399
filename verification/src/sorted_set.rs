use vstd::prelude::*;

verus! {

/// A strict total order on a type of copyable values.
pub trait Ordered: Sized + Copy {
    /// `self` comes strictly before `other`.
    spec fn precedes(self, other: Self) -> bool;

    /// `precedes` is irreflexive, transitive and total.
    proof fn lemma_strict_total_order(a: Self, b: Self, c: Self)
        ensures
            !a.precedes(a),
            a.precedes(b) && b.precedes(c) ==> a.precedes(c),
            a.precedes(b) || a == b || b.precedes(a),
    ;

    /// Decides `precedes`.
    fn before(&self, other: &Self) -> (r: bool)
        ensures
            r == self.precedes(*other),
    ;
}

/// Each element comes strictly before every later one.
pub open spec fn strictly_sorted<T: Ordered>(s: Seq<T>) -> bool {
    forall|i: int, j: int| 0 <= i < j < s.len() ==> (#[trigger] s[i]).precedes(#[trigger] s[j])
}

/// A finite set, kept as the list of its elements in increasing order.
pub struct SortedSet<T: Ordered> {
    items: Vec<T>,
}

impl<T: Ordered> View for SortedSet<T> {
    type V = Set<T>;

    open spec fn view(&self) -> Set<T> {
        self.elems().to_set()
    }
}

proof fn lemma_order_facts<T: Ordered>()
    ensures
        forall|a: T| !(#[trigger] a.precedes(a)),
        forall|a: T, b: T| #[trigger] a.precedes(b) ==> !b.precedes(a),
        forall|a: T, b: T, c: T| #[trigger] a.precedes(b) && #[trigger] b.precedes(c) ==> a.precedes(c),
        forall|a: T, b: T| !(#[trigger] a.precedes(b)) && !b.precedes(a) ==> a == b,
{
    assert forall|a: T| !(#[trigger] a.precedes(a)) by {
        T::lemma_strict_total_order(a, a, a);
    }
    assert forall|a: T, b: T| #[trigger] a.precedes(b) implies !b.precedes(a) by {
        T::lemma_strict_total_order(a, b, a);
    }
    assert forall|a: T, b: T, c: T| #[trigger] a.precedes(b) && #[trigger] b.precedes(c) implies a.precedes(c) by {
        T::lemma_strict_total_order(a, b, c);
    }
    assert forall|a: T, b: T| !(#[trigger] a.precedes(b)) && !b.precedes(a) implies a == b by {
        T::lemma_strict_total_order(a, b, a);
    }
}

impl<T: Ordered> SortedSet<T> {
    /// The elements in increasing order.
    pub closed spec fn elems(&self) -> Seq<T> {
        self.items@
    }

    #[verifier::type_invariant]
    closed spec fn inv(&self) -> bool {
        strictly_sorted(self.items@)
    }

    /// The empty set.
    pub fn new() -> (s: Self)
        ensures
            s@ == Set::<T>::empty(),
            s.elems() == Seq::<T>::empty(),
    {
        let s = SortedSet { items: Vec::new() };
        assert(s.elems().to_set() =~= Set::<T>::empty());
        s
    }

    /// The number of elements; the listing is increasing and lists the set.
    pub fn len(&self) -> (n: usize)
        ensures
            n == self.elems().len(),
            n == self@.len(),
            strictly_sorted(self.elems()),
            self.elems().no_duplicates(),
    {
        proof {
            use_type_invariant(self);
            lemma_order_facts::<T>();
            self.lemma_no_duplicates();
            self.elems().unique_seq_to_set();
        }
        self.items.len()
    }

    proof fn lemma_no_duplicates(&self)
        requires
            strictly_sorted(self.elems()),
        ensures
            self.elems().no_duplicates(),
    {
        lemma_order_facts::<T>();
        let s = self.elems();
        assert forall|i: int, j: int| 0 <= i < s.len() && 0 <= j < s.len() && i != j implies s[i] != s[j] by {
            if i < j {
                assert(s[i].precedes(s[j]));
            } else {
                assert(s[j].precedes(s[i]));
            }
        }
    }

    /// Whether the set is empty.
    pub fn is_empty(&self) -> (b: bool)
        ensures
            b == (self@ == Set::<T>::empty()),
            b == (self.elems().len() == 0),
    {
        proof {
            if self.elems().len() > 0 {
                assert(self@.contains(self.elems()[0]));
            }
            if self.elems().len() == 0 {
                assert(self@ =~= Set::<T>::empty());
            }
        }
        self.items.len() == 0
    }

    /// The element at position `i` of the increasing listing.
    pub fn get(&self, i: usize) -> (x: T)
        requires
            i < self.elems().len(),
        ensures
            x == self.elems()[i as int],
    {
        self.items[i]
    }

    /// The smallest element, if any.
    pub fn first(&self) -> (r: Option<T>)
        ensures
            self.elems().len() == 0 ==> r is None,
            self.elems().len() > 0 ==> r == Some(self.elems()[0]),
            r matches Some(x) ==> self@.contains(x) && forall|y: T| #[trigger] self@.contains(y) && y != x ==> x.precedes(y),
    {
        proof {
            use_type_invariant(self);
        }
        if self.items.len() == 0 {
            None
        } else {
            proof {
                assert(self@.contains(self.elems()[0]));
                assert forall|y: T| #[trigger] self@.contains(y) && y != self.elems()[0] implies self.elems()[0].precedes(y) by {
                    let j = choose|j: int| 0 <= j < self.elems().len() && self.elems()[j] == y;
                    assert(j != 0);
                }
            }
            Some(self.items[0])
        }
    }

    /// The position at which `x` is, or would be, listed: the number of
    /// elements that come before `x`.
    fn position(&self, x: &T) -> (i: usize)
        ensures
            i <= self.elems().len(),
            forall|j: int| 0 <= j < i ==> (#[trigger] self.elems()[j]).precedes(*x),
            forall|j: int| i <= j < self.elems().len() ==> !(#[trigger] self.elems()[j]).precedes(*x),
    {
        proof {
            use_type_invariant(self);
            lemma_order_facts::<T>();
        }
        let mut i: usize = 0;
        while i < self.items.len()
            invariant
                i <= self.elems().len(),
                strictly_sorted(self.elems()),
                forall|j: int| 0 <= j < i ==> (#[trigger] self.elems()[j]).precedes(*x),
            decreases self.elems().len() - i,
        {
            if !self.items[i].before(x) {
                proof {
                    assert forall|j: int| i <= j < self.elems().len() implies !(#[trigger] self.elems()[j]).precedes(*x) by {
                        if j > i {
                            assert(self.elems()[i as int].precedes(self.elems()[j]));
                            T::lemma_strict_total_order(self.elems()[i as int], self.elems()[j], *x);
                        }
                    }
                }
                return i;
            }
            i = i + 1;
        }
        i
    }

    /// Whether `x` is an element.
    pub fn contains(&self, x: &T) -> (b: bool)
        ensures
            b == self@.contains(*x),
    {
        proof {
            use_type_invariant(self);
            lemma_order_facts::<T>();
        }
        let i = self.position(x);
        if i < self.items.len() && !x.before(&self.items[i]) {
            proof {
                assert(self.elems()[i as int] == *x);
            }
            true
        } else {
            proof {
                if self@.contains(*x) {
                    let j = choose|j: int| 0 <= j < self.elems().len() && self.elems()[j] == *x;
                    if j < i {
                        assert(self.elems()[j].precedes(*x));
                    } else {
                        assert(j == i);
                    }
                }
            }
            false
        }
    }

    /// Adds `x`; returns whether it was absent.
    pub fn insert(&mut self, x: T) -> (added: bool)
        ensures
            final(self)@ == old(self)@.insert(x),
            added == !old(self)@.contains(x),
    {
        proof {
            use_type_invariant(&*self);
            lemma_order_facts::<T>();
        }
        let i = self.position(&x);
        if i < self.items.len() && !x.before(&self.items[i]) {
            proof {
                assert(self.elems()[i as int] == x);
                assert(self@.insert(x) =~= self@);
            }
            false
        } else {
            let ghost old_elems = self.elems();
            proof {
                if old_elems.to_set().contains(x) {
                    let j = choose|j: int| 0 <= j < old_elems.len() && old_elems[j] == x;
                    if j < i {
                        assert(old_elems[j].precedes(x));
                    } else {
                        assert(j == i);
                    }
                }
            }
            let mut items = Vec::new();
            std::mem::swap(&mut items, &mut self.items);
            items.insert(i, x);
            proof {
                let s = items@;
                assert(s == old_elems.insert(i as int, x));
                assert forall|a: int, b: int| 0 <= a < b < s.len() implies (#[trigger] s[a]).precedes(#[trigger] s[b]) by {
                    if b < i {
                        assert(s[a] == old_elems[a] && s[b] == old_elems[b]);
                    } else if b == i {
                        assert(s[a] == old_elems[a]);
                    } else if a < i {
                        assert(s[a] == old_elems[a] && s[b] == old_elems[b - 1]);
                        assert(old_elems[a].precedes(x));
                        assert(!old_elems[b - 1].precedes(x));
                        assert(old_elems[b - 1] != x);
                    } else if a == i {
                        assert(s[b] == old_elems[b - 1]);
                        assert(!old_elems[b - 1].precedes(x));
                        assert(old_elems[b - 1] != x);
                    } else {
                        assert(s[a] == old_elems[a - 1] && s[b] == old_elems[b - 1]);
                    }
                }
                assert(s.to_set() =~= old_elems.to_set().insert(x)) by {
                    assert forall|y: T| s.to_set().contains(y) implies old_elems.to_set().insert(x).contains(y) by {
                        let j = choose|j: int| 0 <= j < s.len() && s[j] == y;
                        if j < i {
                            assert(old_elems[j] == y);
                        } else if j > i {
                            assert(old_elems[j - 1] == y);
                        }
                    }
                    assert forall|y: T| old_elems.to_set().insert(x).contains(y) implies s.to_set().contains(y) by {
                        if y == x {
                            assert(s[i as int] == x);
                        } else {
                            let j = choose|j: int| 0 <= j < old_elems.len() && old_elems[j] == y;
                            if j < i {
                                assert(s[j] == y);
                            } else {
                                assert(s[j + 1] == y);
                            }
                        }
                    }
                }
            }
            self.items = items;
            true
        }
    }

    /// Removes `x`; returns whether it was present.
    pub fn remove(&mut self, x: &T) -> (removed: bool)
        ensures
            final(self)@ == old(self)@.remove(*x),
            removed == old(self)@.contains(*x),
    {
        proof {
            use_type_invariant(&*self);
            lemma_order_facts::<T>();
        }
        let i = self.position(x);
        if i < self.items.len() && !x.before(&self.items[i]) {
            let ghost old_elems = self.elems();
            proof {
                assert(old_elems[i as int] == *x);
                self.lemma_no_duplicates();
            }
            let mut items = Vec::new();
            std::mem::swap(&mut items, &mut self.items);
            items.remove(i);
            proof {
                let s = items@;
                assert(s == old_elems.remove(i as int));
                assert forall|a: int, b: int| 0 <= a < b < s.len() implies (#[trigger] s[a]).precedes(#[trigger] s[b]) by {
                    if b < i {
                        assert(s[a] == old_elems[a] && s[b] == old_elems[b]);
                    } else if a < i {
                        assert(s[a] == old_elems[a] && s[b] == old_elems[b + 1]);
                    } else {
                        assert(s[a] == old_elems[a + 1] && s[b] == old_elems[b + 1]);
                    }
                }
                assert(s.to_set() =~= old_elems.to_set().remove(*x)) by {
                    assert forall|y: T| s.to_set().contains(y) implies old_elems.to_set().remove(*x).contains(y) by {
                        let j = choose|j: int| 0 <= j < s.len() && s[j] == y;
                        if j < i {
                            assert(old_elems[j] == y);
                        } else {
                            assert(old_elems[j + 1] == y);
                        }
                    }
                    assert forall|y: T| old_elems.to_set().remove(*x).contains(y) implies s.to_set().contains(y) by {
                        let j = choose|j: int| 0 <= j < old_elems.len() && old_elems[j] == y;
                        if j < i {
                            assert(s[j] == y);
                        } else {
                            assert(j != i);
                            assert(s[j - 1] == y);
                        }
                    }
                }
            }
            self.items = items;
            true
        } else {
            proof {
                if self@.contains(*x) {
                    let j = choose|j: int| 0 <= j < self.elems().len() && self.elems()[j] == *x;
                    if j < i {
                        assert(self.elems()[j].precedes(*x));
                    } else {
                        assert(j == i);
                    }
                }
                assert(self@.remove(*x) =~= self@);
            }
            false
        }
    }

    /// A copy of the set.
    pub fn copy(&self) -> (c: Self)
        ensures
            c@ == self@,
            c.elems() == self.elems(),
    {
        proof {
            use_type_invariant(self);
        }
        let mut items: Vec<T> = Vec::new();
        let mut i: usize = 0;
        while i < self.items.len()
            invariant
                i <= self.elems().len(),
                items@ == self.elems().subrange(0, i as int),
            decreases self.elems().len() - i,
        {
            items.push(self.items[i]);
            i = i + 1;
            assert(items@ =~= self.elems().subrange(0, i as int));
        }
        assert(items@ =~= self.elems());
        SortedSet { items }
    }
}

} // verus!
