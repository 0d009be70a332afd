//! An algebraic data type, a binary tree of keyed references, and a lookup
//! over it written by pattern matching.
use vstd::prelude::*;
use vstd::std_specs::cmp::PartialEqSpec;

verus! {

/// A binary tree whose leaves and inner nodes each carry a key and a reference
/// to data that outlives the tree.
#[derive(Debug)]
pub enum Tree<'a, K, V> {
    Leaf(K, &'a V),
    Node { key: K, data: &'a V, left: Box<Self>, right: Box<Self> },
}

impl<'a, K, V> Tree<'a, K, V> {
    /// The keys and data of the tree in the order in which a lookup visits
    /// them: a node first, then its left subtree, then its right subtree.
    pub open spec fn entries(&self) -> Seq<(K, V)>
        decreases self,
    {
        match self {
            Tree::Leaf(key, data) => seq![(*key, **data)],
            Tree::Node { key, data, left, right } => seq![(*key, **data)] + left.entries()
                + right.entries(),
        }
    }
}

/// Whether no key among the first `n` entries of `s` equals `k`.
pub open spec fn no_match_before<K: PartialEq, V>(s: Seq<(K, V)>, k: K, n: int) -> bool {
    forall|j: int| 0 <= j < n && j < s.len() ==> !(#[trigger] s[j]).0.eq_spec(&k)
}

/// Whether entry `i` of `s` is the first one whose key equals `k`.
pub open spec fn is_first_match<K: PartialEq, V>(s: Seq<(K, V)>, k: K, i: int) -> bool {
    &&& 0 <= i < s.len()
    &&& s[i].0.eq_spec(&k)
    &&& no_match_before(s, k, i)
}

impl<'a, K: PartialEq + Eq, V> Tree<'a, K, V> {
    /// Looks `lookup_key` up: the data of the first entry, in visiting order,
    /// whose key equals it, or `None` when no key does.
    pub fn search(&self, lookup_key: &K) -> (found: Option<&'a V>)
        ensures
            K::obeys_eq_spec() ==> match found {
                Some(data) => exists|i: int|
                    #![trigger self.entries()[i]]
                    is_first_match(self.entries(), *lookup_key, i) && self.entries()[i].1
                        == *data,
                None => no_match_before(self.entries(), *lookup_key, self.entries().len() as int),
            },
        decreases self,
    {
        match self {
            Tree::Leaf(key, data) => {
                if *key == *lookup_key {
                    assert(K::obeys_eq_spec() ==> is_first_match(
                        self.entries(),
                        *lookup_key,
                        0,
                    ) && self.entries()[0].1 == **data);
                    Some(*data)
                } else {
                    None
                }
            },
            Tree::Node { key, data, left, right } => {
                if *key == *lookup_key {
                    assert(K::obeys_eq_spec() ==> is_first_match(
                        self.entries(),
                        *lookup_key,
                        0,
                    ) && self.entries()[0].1 == **data);
                    return Some(*data);
                }
                let ghost head = seq![(*key, **data)];
                let ghost l = left.entries();
                let ghost r = right.entries();
                let ghost all = self.entries();
                assert(all == head + l + r);
                assert(forall|j: int| 0 <= j < l.len() ==> all[j + 1] == l[j]);
                assert(forall|j: int| 0 <= j < r.len() ==> all[j + 1 + l.len()] == r[j]);
                let in_left = left.search(lookup_key);
                if let Some(d) = in_left {
                    proof {
                        if K::obeys_eq_spec() {
                            let i = choose|i: int|
                                #![trigger l[i]]
                                is_first_match(l, *lookup_key, i) && l[i].1 == *d;
                            assert(all[i + 1] == l[i]);
                            assert forall|j: int| 0 <= j < i + 1 && j < all.len() implies !(
                            #[trigger] all[j]).0.eq_spec(lookup_key) by {
                                if j > 0 {
                                    assert(all[j] == l[j - 1]);
                                }
                            }
                            assert(is_first_match(all, *lookup_key, i + 1));
                        }
                    }
                    in_left
                } else {
                    let in_right = right.search(lookup_key);
                    proof {
                        if K::obeys_eq_spec() {
                            assert forall|j: int| 0 <= j < 1 + l.len() implies !(
                            #[trigger] all[j]).0.eq_spec(lookup_key) by {
                                if j > 0 {
                                    assert(all[j] == l[j - 1]);
                                }
                            }
                            match in_right {
                                Some(d) => {
                                    let i = choose|i: int|
                                        #![trigger r[i]]
                                        is_first_match(r, *lookup_key, i) && r[i].1 == *d;
                                    let t = i + 1 + l.len();
                                    assert(all[t] == r[i]);
                                    assert forall|j: int| 0 <= j < t && j < all.len() implies !(
                                    #[trigger] all[j]).0.eq_spec(lookup_key) by {
                                        if j >= 1 + l.len() {
                                            assert(all[j] == r[j - 1 - l.len()]);
                                        }
                                    }
                                    assert(is_first_match(all, *lookup_key, t));
                                },
                                None => {
                                    assert forall|j: int| 0 <= j < all.len() implies !(
                                    #[trigger] all[j]).0.eq_spec(lookup_key) by {
                                        if j >= 1 + l.len() {
                                            assert(all[j] == r[j - 1 - l.len()]);
                                        }
                                    }
                                },
                            }
                        }
                    }
                    in_right
                }
            },
        }
    }
}

/// A marker for the rule that a type cannot hold a value of itself directly:
/// a recursive field needs a pointer of known size, as the `Box` in [`Tree`].
pub struct SelfReferentialStructureTest;

} // verus!
