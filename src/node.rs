//! The nodes of the prefix tree, what they hold, and the recursive algorithms on them.
use vstd::prelude::*;

use crate::key::{
    is_prefix, lemma_concat_prefix, lemma_prefix_prepend, lemma_prefix_refl, lemma_prefix_skip,
    lemma_prefix_trans, lemma_prefixes_ordered, starts_with_at, suffix_of,
};

verus! {

/// A node of the prefix tree: the piece of key it adds to its parent's, the nodes below
/// it, and the value of the key it stands for, if that key holds one.
pub(crate) struct TrieNode<V> {
    pub(crate) prefix: Vec<u8>,
    pub(crate) children: Vec<TrieNode<V>>,
    pub(crate) value: Option<V>,
}

impl<V> TrieNode<V> {
    /// The value slot of the node whose full key is `key`, counted from this node's own
    /// prefix on: `None` where no node stands there, `Some(None)` for a hollow node.
    pub(crate) open spec fn slot(self, key: Seq<u8>) -> Option<Option<V>>
        decreases self,
    {
        if key == self.prefix@ {
            Some(self.value)
        } else if is_prefix(self.prefix@, key) {
            Self::slot_in(self.children@, key.skip(self.prefix@.len() as int))
        } else {
            None
        }
    }

    /// The slot for `rest` found in any of the nodes `cs`.
    pub(crate) open spec fn slot_in(cs: Seq<TrieNode<V>>, rest: Seq<u8>) -> Option<Option<V>>
        decreases cs,
    {
        if cs.len() == 0 {
            None
        } else {
            match cs.last().slot(rest) {
                Some(s) => Some(s),
                None => Self::slot_in(cs.drop_last(), rest),
            }
        }
    }

    /// The value stored under `key`, counted from this node's own prefix on.
    pub(crate) open spec fn lookup(self, key: Seq<u8>) -> Option<V> {
        match self.slot(key) {
            Some(s) => s,
            None => None,
        }
    }

    /// The number of children of the node whose full key is `key`, counted from this
    /// node's own prefix on (0 where no node stands there).
    pub(crate) open spec fn branches(self, key: Seq<u8>) -> nat
        decreases self,
    {
        if key == self.prefix@ {
            self.children@.len()
        } else if is_prefix(self.prefix@, key) {
            Self::branches_in(self.children@, key.skip(self.prefix@.len() as int))
        } else {
            0
        }
    }

    /// The number of children of the node for `rest` among the subtrees of `cs`.
    pub(crate) open spec fn branches_in(cs: Seq<TrieNode<V>>, rest: Seq<u8>) -> nat
        decreases cs,
    {
        if cs.len() == 0 {
            0
        } else if is_prefix(cs.last().prefix@, rest) {
            cs.last().branches(rest)
        } else {
            Self::branches_in(cs.drop_last(), rest)
        }
    }

    /// Among siblings, the one whose prefix starts `rest` decides its branch count.
    pub(crate) proof fn lemma_branches_in_hit(cs: Seq<TrieNode<V>>, i: int, rest: Seq<u8>)
        requires
            Self::siblings_ok(cs),
            0 <= i < cs.len(),
            is_prefix(cs[i].prefix@, rest),
        ensures
            Self::branches_in(cs, rest) == cs[i].branches(rest),
        decreases cs.len(),
    {
        let n = cs.len() - 1;
        let d = cs.drop_last();
        if i != n {
            Self::lemma_one_match(cs, i, n, rest);
            assert(d[i] == cs[i]);
            assert(Self::siblings_ok(d)) by {
                assert forall|a: int, b: int|
                    0 <= a < d.len() && 0 <= b < d.len() && a != b implies !is_prefix(
                    #[trigger] d[a].prefix@,
                    #[trigger] d[b].prefix@,
                ) by {
                    assert(d[a] == cs[a] && d[b] == cs[b]);
                }
            }
            Self::lemma_branches_in_hit(d, i, rest);
        }
    }

    /// Where no node of `cs` starts `rest`, the branch count there is 0.
    pub(crate) proof fn lemma_branches_in_miss(cs: Seq<TrieNode<V>>, rest: Seq<u8>)
        requires
            forall|j: int| 0 <= j < cs.len() ==> !is_prefix(#[trigger] cs[j].prefix@, rest),
        ensures
            Self::branches_in(cs, rest) == 0,
        decreases cs.len(),
    {
        if cs.len() > 0 {
            let d = cs.drop_last();
            assert(!is_prefix(cs[cs.len() - 1].prefix@, rest));
            assert forall|j: int| 0 <= j < d.len() implies !is_prefix(#[trigger] d[j].prefix@, rest) by {
                assert(d[j] == cs[j]);
            }
            Self::lemma_branches_in_miss(d, rest);
        }
    }

    /// A node below the root holds a value itself or somewhere below it.
    pub(crate) proof fn lemma_value_below(self)
        requires
            self.shape(),
            self.child_ok(),
        ensures
            exists|k: Seq<u8>| #[trigger] self.lookup(k) is Some && is_prefix(self.prefix@, k),
        decreases self,
    {
        let p = self.prefix@;
        lemma_prefix_refl(p);
        if self.value is Some {
            assert(self.lookup(p) is Some);
        } else {
            let d = self.children@[0];
            assert(d.child_ok() && d.shape());
            d.lemma_value_below();
            let k2 = choose|k: Seq<u8>| #[trigger] d.lookup(k) is Some && is_prefix(d.prefix@, k);
            lemma_concat_prefix(p, k2);
            Self::lemma_slot_in_hit(self.children@, 0, k2);
            assert(self.lookup(p + k2) is Some);
        }
    }

    /// A node with two children or more has two stored keys below it, neither of which
    /// starts the other.
    pub(crate) proof fn lemma_branches_keys(self, key: Seq<u8>)
        requires
            self.shape(),
            self.branches(key) >= 2,
        ensures
            exists|k1: Seq<u8>, k2: Seq<u8>|
                #![trigger self.lookup(k1), self.lookup(k2)]
                self.lookup(k1) is Some && self.lookup(k2) is Some && is_prefix(key, k1) && is_prefix(
                    key,
                    k2,
                ) && k1 != key && k2 != key && !is_prefix(k1, k2) && !is_prefix(k2, k1),
        decreases self,
    {
        let p = self.prefix@;
        let cs = self.children@;
        if key == p {
            let c0 = cs[0];
            let c1 = cs[1];
            assert(c0.child_ok() && c0.shape() && c1.child_ok() && c1.shape());
            c0.lemma_value_below();
            c1.lemma_value_below();
            let a = choose|k: Seq<u8>| #[trigger] c0.lookup(k) is Some && is_prefix(c0.prefix@, k);
            let b = choose|k: Seq<u8>| #[trigger] c1.lookup(k) is Some && is_prefix(c1.prefix@, k);
            lemma_concat_prefix(p, a);
            lemma_concat_prefix(p, b);
            Self::lemma_slot_in_hit(cs, 0, a);
            Self::lemma_slot_in_hit(cs, 1, b);
            assert(self.lookup(p + a) is Some && self.lookup(p + b) is Some);
            lemma_prefix_prepend(p, a, b);
            lemma_prefix_prepend(p, b, a);
            if is_prefix(a, b) {
                lemma_prefix_trans(c0.prefix@, a, b);
                Self::lemma_one_match(cs, 1, 0, b);
            }
            if is_prefix(b, a) {
                lemma_prefix_trans(c1.prefix@, b, a);
                Self::lemma_one_match(cs, 0, 1, a);
            }
            assert((p + a).len() > p.len() && (p + b).len() > p.len());
        } else {
            let r = key.skip(p.len() as int);
            lemma_prefix_skip(p, key);
            if !exists|j: int| 0 <= j < cs.len() && is_prefix(#[trigger] cs[j].prefix@, r) {
                Self::lemma_branches_in_miss(cs, r);
            }
            let i = choose|j: int| 0 <= j < cs.len() && is_prefix(#[trigger] cs[j].prefix@, r);
            Self::lemma_branches_in_hit(cs, i, r);
            let c = cs[i];
            assert(c.shape());
            c.lemma_branches_keys(r);
            let (a, b) = choose|k1: Seq<u8>, k2: Seq<u8>|
                #![trigger c.lookup(k1), c.lookup(k2)]
                c.lookup(k1) is Some && c.lookup(k2) is Some && is_prefix(r, k1) && is_prefix(r, k2)
                    && k1 != r && k2 != r && !is_prefix(k1, k2) && !is_prefix(k2, k1);
            c.lemma_slot_matches(a);
            c.lemma_slot_matches(b);
            lemma_concat_prefix(p, a);
            lemma_concat_prefix(p, b);
            Self::lemma_slot_in_hit(cs, i, a);
            Self::lemma_slot_in_hit(cs, i, b);
            lemma_prefix_prepend(p, a, b);
            lemma_prefix_prepend(p, b, a);
            lemma_prefix_prepend(p, r, a);
            lemma_prefix_prepend(p, r, b);
            assert(c.prefix@.len() > 0);
            if p + a == p {
                assert((p + a).len() == p.len());
            }
            if p + b == p {
                assert((p + b).len() == p.len());
            }
            assert(p + a != key);
            assert(p + b != key);
            assert(self.lookup(p + a) is Some && self.lookup(p + b) is Some);
        }
    }

    /// Number of nodes in this subtree, this node included.
    pub(crate) open spec fn count(self) -> nat
        decreases self,
    {
        1 + Self::count_in(self.children@)
    }

    /// Number of nodes in the subtrees of `cs`.
    pub(crate) open spec fn count_in(cs: Seq<TrieNode<V>>) -> nat
        decreases cs,
    {
        if cs.len() == 0 {
            0
        } else {
            Self::count_in(cs.drop_last()) + cs.last().count()
        }
    }

    /// No prefix among `cs` starts another one.
    pub(crate) open spec fn siblings_ok(cs: Seq<TrieNode<V>>) -> bool {
        forall|i: int, j: int|
            0 <= i < cs.len() && 0 <= j < cs.len() && i != j ==> !is_prefix(
                #[trigger] cs[i].prefix@,
                #[trigger] cs[j].prefix@,
            )
    }

    /// What a node below the root must satisfy of itself: a non-empty prefix, and a
    /// value unless it branches to two children or more.
    pub(crate) open spec fn child_ok(self) -> bool {
        &&& self.prefix@.len() > 0
        &&& self.value is None ==> self.children@.len() >= 2
    }

    /// Well-formedness of everything below this node.
    pub(crate) open spec fn shape(self) -> bool
        decreases self,
    {
        &&& Self::siblings_ok(self.children@)
        &&& forall|i: int|
            0 <= i < self.children@.len() ==> (#[trigger] self.children@[i]).child_ok()
                && self.children@[i].shape()
    }

    /// A node has a slot only for keys that start with its prefix.
    pub(crate) proof fn lemma_slot_matches(self, key: Seq<u8>)
        ensures
            self.slot(key) is Some ==> is_prefix(self.prefix@, key),
    {
        lemma_prefix_refl(key);
    }

    /// Two distinct siblings never both start one key.
    pub(crate) proof fn lemma_one_match(cs: Seq<TrieNode<V>>, i: int, j: int, rest: Seq<u8>)
        requires
            Self::siblings_ok(cs),
            0 <= i < cs.len(),
            0 <= j < cs.len(),
            i != j,
            is_prefix(cs[i].prefix@, rest),
        ensures
            !is_prefix(cs[j].prefix@, rest),
    {
        if is_prefix(cs[j].prefix@, rest) {
            if cs[i].prefix@.len() <= cs[j].prefix@.len() {
                lemma_prefixes_ordered(cs[i].prefix@, cs[j].prefix@, rest);
            } else {
                lemma_prefixes_ordered(cs[j].prefix@, cs[i].prefix@, rest);
            }
        }
    }

    /// Where no node of `cs` starts `rest`, no slot is found.
    pub(crate) proof fn lemma_slot_in_miss(cs: Seq<TrieNode<V>>, rest: Seq<u8>)
        requires
            forall|j: int| 0 <= j < cs.len() ==> !is_prefix(#[trigger] cs[j].prefix@, rest),
        ensures
            Self::slot_in(cs, rest) is None,
        decreases cs.len(),
    {
        if cs.len() > 0 {
            cs.last().lemma_slot_matches(rest);
            let d = cs.drop_last();
            assert forall|j: int| 0 <= j < d.len() implies !is_prefix(#[trigger] d[j].prefix@, rest) by {
                assert(d[j] == cs[j]);
            }
            Self::lemma_slot_in_miss(d, rest);
        }
    }

    /// Among siblings, the one whose prefix starts `rest` decides its slot.
    pub(crate) proof fn lemma_slot_in_hit(cs: Seq<TrieNode<V>>, i: int, rest: Seq<u8>)
        requires
            Self::siblings_ok(cs),
            0 <= i < cs.len(),
            is_prefix(cs[i].prefix@, rest),
        ensures
            Self::slot_in(cs, rest) == cs[i].slot(rest),
        decreases cs.len(),
    {
        let n = cs.len() - 1;
        let d = cs.drop_last();
        assert forall|a: int| 0 <= a < d.len() implies #[trigger] d[a] == cs[a] by {}
        if i == n {
            assert forall|j: int| 0 <= j < d.len() implies !is_prefix(#[trigger] d[j].prefix@, rest) by {
                Self::lemma_one_match(cs, i, j, rest);
            }
            Self::lemma_slot_in_miss(d, rest);
        } else {
            Self::lemma_one_match(cs, i, n, rest);
            cs.last().lemma_slot_matches(rest);
            assert(Self::siblings_ok(d)) by {
                assert forall|a: int, b: int|
                    0 <= a < d.len() && 0 <= b < d.len() && a != b implies !is_prefix(
                    #[trigger] d[a].prefix@,
                    #[trigger] d[b].prefix@,
                ) by {
                    assert(d[a] == cs[a] && d[b] == cs[b]);
                }
            }
            Self::lemma_slot_in_hit(d, i, rest);
        }
    }

    /// The slot of `rest` among siblings: the matching one's, or none.
    pub(crate) proof fn lemma_slot_in_cases(cs: Seq<TrieNode<V>>, rest: Seq<u8>)
        requires
            Self::siblings_ok(cs),
        ensures
            (forall|j: int| 0 <= j < cs.len() ==> !is_prefix(#[trigger] cs[j].prefix@, rest))
                ==> Self::slot_in(cs, rest) is None,
            forall|j: int|
                0 <= j < cs.len() && is_prefix(#[trigger] cs[j].prefix@, rest) ==> Self::slot_in(
                    cs,
                    rest,
                ) == cs[j].slot(rest),
    {
        if forall|j: int| 0 <= j < cs.len() ==> !is_prefix(#[trigger] cs[j].prefix@, rest) {
            Self::lemma_slot_in_miss(cs, rest);
        }
        assert forall|j: int|
            0 <= j < cs.len() && is_prefix(#[trigger] cs[j].prefix@, rest) implies Self::slot_in(
            cs,
            rest,
        ) == cs[j].slot(rest) by {
            Self::lemma_slot_in_hit(cs, j, rest);
        }
    }

    /// Replacing a sibling by one whose prefix extends the old prefix.
    pub(crate) proof fn lemma_slot_in_update(cs: Seq<TrieNode<V>>, i: int, c: TrieNode<V>, rest: Seq<u8>)
        requires
            Self::siblings_ok(cs),
            0 <= i < cs.len(),
            is_prefix(cs[i].prefix@, c.prefix@),
        ensures
            Self::siblings_ok(cs.update(i, c)),
            Self::slot_in(cs.update(i, c), rest) == if is_prefix(cs[i].prefix@, rest) {
                c.slot(rest)
            } else {
                Self::slot_in(cs, rest)
            },
    {
        let u = cs.update(i, c);
        assert forall|a: int, b: int|
            0 <= a < u.len() && 0 <= b < u.len() && a != b implies !is_prefix(
            #[trigger] u[a].prefix@,
            #[trigger] u[b].prefix@,
        ) by {
            if a == i {
                if is_prefix(c.prefix@, cs[b].prefix@) {
                    lemma_prefix_trans(cs[i].prefix@, c.prefix@, cs[b].prefix@);
                }
            } else if b == i {
                if is_prefix(cs[a].prefix@, c.prefix@) {
                    if cs[a].prefix@.len() <= cs[i].prefix@.len() {
                        lemma_prefixes_ordered(cs[a].prefix@, cs[i].prefix@, c.prefix@);
                    } else {
                        lemma_prefixes_ordered(cs[i].prefix@, cs[a].prefix@, c.prefix@);
                    }
                }
            }
        }
        c.lemma_slot_matches(rest);
        if is_prefix(c.prefix@, rest) {
            lemma_prefix_trans(cs[i].prefix@, c.prefix@, rest);
        }
        if is_prefix(cs[i].prefix@, rest) {
            assert forall|j: int| 0 <= j < u.len() && j != i implies !is_prefix(
                #[trigger] u[j].prefix@,
                rest,
            ) by {
                Self::lemma_one_match(cs, i, j, rest);
            }
            assert(u[i] == c);
            if !is_prefix(c.prefix@, rest) {
                assert forall|j: int| 0 <= j < u.len() implies !is_prefix(
                    #[trigger] u[j].prefix@,
                    rest,
                ) by {
                    if j != i {
                        Self::lemma_one_match(cs, i, j, rest);
                    }
                }
                Self::lemma_slot_in_miss(u, rest);
            } else {
                Self::lemma_slot_in_hit(u, i, rest);
            }
        } else {
            if exists|j: int| 0 <= j < cs.len() && is_prefix(#[trigger] cs[j].prefix@, rest) {
                let j = choose|j: int| 0 <= j < cs.len() && is_prefix(#[trigger] cs[j].prefix@, rest);
                assert(u[j] == cs[j]);
                Self::lemma_slot_in_hit(u, j, rest);
                Self::lemma_slot_in_hit(cs, j, rest);
            } else {
                assert forall|j: int| 0 <= j < u.len() implies !is_prefix(#[trigger] u[j].prefix@, rest) by {
                    if j != i {
                        assert(u[j] == cs[j]);
                    }
                }
                Self::lemma_slot_in_miss(u, rest);
                Self::lemma_slot_in_miss(cs, rest);
            }
        }
    }

    /// Appending a sibling.
    pub(crate) proof fn lemma_slot_in_push(cs: Seq<TrieNode<V>>, c: TrieNode<V>, rest: Seq<u8>)
        requires
            Self::siblings_ok(cs.push(c)),
        ensures
            Self::slot_in(cs.push(c), rest) == if is_prefix(c.prefix@, rest) {
                c.slot(rest)
            } else {
                Self::slot_in(cs, rest)
            },
    {
        let u = cs.push(c);
        assert(u.drop_last() =~= cs);
        assert(u.last() == c);
        c.lemma_slot_matches(rest);
        if is_prefix(c.prefix@, rest) {
            Self::lemma_slot_in_hit(u, cs.len() as int, rest);
        }
    }

    /// Taking a sibling out.
    pub(crate) proof fn lemma_slot_in_remove(cs: Seq<TrieNode<V>>, i: int, rest: Seq<u8>)
        requires
            Self::siblings_ok(cs),
            0 <= i < cs.len(),
        ensures
            Self::siblings_ok(cs.remove(i)),
            Self::slot_in(cs.remove(i), rest) == if is_prefix(cs[i].prefix@, rest) {
                None
            } else {
                Self::slot_in(cs, rest)
            },
    {
        let u = cs.remove(i);
        assert forall|a: int| 0 <= a < u.len() implies #[trigger] u[a] == cs[if a < i {
            a
        } else {
            a + 1
        }] by {}
        assert forall|a: int, b: int|
            0 <= a < u.len() && 0 <= b < u.len() && a != b implies !is_prefix(
            #[trigger] u[a].prefix@,
            #[trigger] u[b].prefix@,
        ) by {
            let a1 = if a < i {
                a
            } else {
                a + 1
            };
            let b1 = if b < i {
                b
            } else {
                b + 1
            };
            assert(u[a] == cs[a1] && u[b] == cs[b1]);
        }
        Self::lemma_slot_in_cases(cs, rest);
        Self::lemma_slot_in_cases(u, rest);
        if is_prefix(cs[i].prefix@, rest) {
            assert forall|j: int| 0 <= j < u.len() implies !is_prefix(#[trigger] u[j].prefix@, rest) by {
                let j1 = if j < i {
                    j
                } else {
                    j + 1
                };
                assert(u[j] == cs[j1]);
                Self::lemma_one_match(cs, i, j1, rest);
            }
        } else {
            if exists|j: int| 0 <= j < cs.len() && is_prefix(#[trigger] cs[j].prefix@, rest) {
                let j = choose|j: int| 0 <= j < cs.len() && is_prefix(#[trigger] cs[j].prefix@, rest);
                let j0 = if j < i {
                    j
                } else {
                    j - 1
                };
                assert(u[j0] == cs[j]);
            } else {
                assert forall|j: int| 0 <= j < u.len() implies !is_prefix(#[trigger] u[j].prefix@, rest) by {
                    let j1 = if j < i {
                        j
                    } else {
                        j + 1
                    };
                    assert(u[j] == cs[j1]);
                }
            }
        }
    }

    /// Two keys that start with one segment are equal when what follows it is.
    pub(crate) proof fn lemma_same_rest(p: Seq<u8>, k: Seq<u8>, l: Seq<u8>)
        requires
            is_prefix(p, k),
            is_prefix(p, l),
        ensures
            (k == l) == (k.skip(p.len() as int) == l.skip(p.len() as int)),
    {
        lemma_prefix_skip(p, k);
        lemma_prefix_skip(p, l);
    }

    /// A node whose prefix is `p` followed by `b`'s, over the same value and children,
    /// has under `p + r` the slot that `b` has under `r`, and none for keys not
    /// starting with `p`.
    pub(crate) proof fn lemma_slot_shift(a: TrieNode<V>, b: TrieNode<V>, p: Seq<u8>, r: Seq<u8>)
        requires
            a.prefix@ == p + b.prefix@,
            a.value == b.value,
            a.children@ == b.children@,
        ensures
            a.slot(p + r) == b.slot(r),
            !is_prefix(p, r) ==> a.slot(r) is None,
    {
        lemma_prefix_prepend(p, b.prefix@, r);
        lemma_concat_prefix(p, r);
        lemma_concat_prefix(p, b.prefix@);
        if p + r == p + b.prefix@ {
            assert(r == b.prefix@);
        }
        if is_prefix(b.prefix@, r) {
            assert((p + r).skip((p + b.prefix@).len() as int) =~= r.skip(b.prefix@.len() as int));
        }
        a.lemma_slot_matches(r);
        if is_prefix(a.prefix@, r) {
            lemma_prefix_trans(p, a.prefix@, r);
        }
    }

    /// Moving sibling `j` to the end changes no slot.
    pub(crate) proof fn lemma_slot_in_rotate(cs: Seq<TrieNode<V>>, j: int, rest: Seq<u8>)
        requires
            Self::siblings_ok(cs),
            0 <= j < cs.len(),
        ensures
            Self::siblings_ok(cs.remove(j).push(cs[j])),
            Self::slot_in(cs.remove(j).push(cs[j]), rest) == Self::slot_in(cs, rest),
    {
        let d = cs.remove(j);
        let u = d.push(cs[j]);
        Self::lemma_slot_in_remove(cs, j, rest);
        assert forall|a: int, b: int|
            0 <= a < u.len() && 0 <= b < u.len() && a != b implies !is_prefix(
            #[trigger] u[a].prefix@,
            #[trigger] u[b].prefix@,
        ) by {
            let a1 = if a == d.len() {
                j
            } else if a < j {
                a
            } else {
                a + 1
            };
            let b1 = if b == d.len() {
                j
            } else if b < j {
                b
            } else {
                b + 1
            };
            assert(u[a] == cs[a1] && u[b] == cs[b1]);
        }
        Self::lemma_slot_in_push(d, cs[j], rest);
        if is_prefix(cs[j].prefix@, rest) {
            Self::lemma_slot_in_hit(cs, j, rest);
        }
    }

    /// Gathering under a new node `n`, whose prefix is `rest`, the siblings whose prefixes
    /// start with `rest` (here `moved`, each cut after `rest`) keeps every slot of `f`
    /// but the one of `rest` itself.
    pub(crate) proof fn lemma_split(
        f: Seq<TrieNode<V>>,
        cs: Seq<TrieNode<V>>,
        moved: Seq<TrieNode<V>>,
        rest: Seq<u8>,
        n: TrieNode<V>,
        r: Seq<u8>,
    )
        requires
            Self::siblings_ok(f),
            f.len() == cs.len() + moved.len(),
            forall|a: int| 0 <= a < cs.len() ==> f[a] == #[trigger] cs[a],
            forall|b: int|
                0 <= b < moved.len() ==> f[cs.len() + b].prefix@ == rest + (#[trigger] moved[b]).prefix@
                    && f[cs.len() + b].value == moved[b].value && f[cs.len() + b].children@
                    == moved[b].children@,
            forall|a: int|
                0 <= a < cs.len() ==> !is_prefix((#[trigger] cs[a]).prefix@, rest) && !is_prefix(
                    rest,
                    cs[a].prefix@,
                ),
            n.prefix@ == rest,
            n.children@ == moved,
        ensures
            Self::siblings_ok(moved),
            Self::siblings_ok(cs.push(n)),
            Self::slot_in(cs.push(n), r) == if r == rest {
                Some(n.value)
            } else {
                Self::slot_in(f, r)
            },
    {
        let m = cs.len();
        assert forall|a: int, b: int|
            0 <= a < moved.len() && 0 <= b < moved.len() && a != b implies !is_prefix(
            #[trigger] moved[a].prefix@,
            #[trigger] moved[b].prefix@,
        ) by {
            lemma_prefix_prepend(rest, moved[a].prefix@, moved[b].prefix@);
            assert(f[m + a].prefix@ == rest + moved[a].prefix@);
            assert(f[m + b].prefix@ == rest + moved[b].prefix@);
        }
        let u = cs.push(n);
        assert forall|a: int, b: int|
            0 <= a < u.len() && 0 <= b < u.len() && a != b implies !is_prefix(
            #[trigger] u[a].prefix@,
            #[trigger] u[b].prefix@,
        ) by {
            if a < m && b < m {
                assert(u[a] == f[a] && u[b] == f[b]);
            } else if a < m {
                assert(u[a] == cs[a]);
            } else {
                assert(u[b] == cs[b]);
            }
        }
        Self::lemma_slot_in_push(cs, n, r);
        lemma_prefix_refl(rest);
        if is_prefix(rest, r) {
            if r != rest {
                let r2 = r.skip(rest.len() as int);
                lemma_prefix_skip(rest, r);
                assert(n.slot(r) == Self::slot_in(moved, r2));
                assert forall|a: int| 0 <= a < m implies !is_prefix(#[trigger] f[a].prefix@, r) by {
                    assert(f[a] == cs[a]);
                    if is_prefix(f[a].prefix@, r) {
                        if f[a].prefix@.len() <= rest.len() {
                            lemma_prefixes_ordered(f[a].prefix@, rest, r);
                        } else {
                            lemma_prefixes_ordered(rest, f[a].prefix@, r);
                        }
                    }
                }
                if exists|b: int| 0 <= b < moved.len() && is_prefix(#[trigger] moved[b].prefix@, r2) {
                    let b = choose|b: int| 0 <= b < moved.len() && is_prefix(#[trigger] moved[b].prefix@, r2);
                    Self::lemma_slot_in_hit(moved, b, r2);
                    lemma_prefix_prepend(rest, moved[b].prefix@, r2);
                    Self::lemma_slot_in_hit(f, m + b, r);
                    Self::lemma_slot_shift(f[m + b], moved[b], rest, r2);
                } else {
                    Self::lemma_slot_in_miss(moved, r2);
                    assert forall|a: int| 0 <= a < f.len() implies !is_prefix(#[trigger] f[a].prefix@, r) by {
                        if a >= m {
                            let b = a - m;
                            assert(f[m + b].prefix@ == rest + moved[b].prefix@);
                            lemma_prefix_prepend(rest, moved[b].prefix@, r2);
                        }
                    }
                    Self::lemma_slot_in_miss(f, r);
                }
            }
        } else {
            assert forall|b: int| m <= b < f.len() implies !is_prefix(#[trigger] f[b].prefix@, r) by {
                assert(f[m + (b - m)].prefix@ == rest + moved[b - m].prefix@);
                lemma_concat_prefix(rest, moved[b - m].prefix@);
                if is_prefix(f[b].prefix@, r) {
                    lemma_prefix_trans(rest, f[b].prefix@, r);
                }
            }
            if exists|a: int| 0 <= a < m && is_prefix(#[trigger] cs[a].prefix@, r) {
                let a = choose|a: int| 0 <= a < m && is_prefix(#[trigger] cs[a].prefix@, r);
                assert(u[a] == cs[a]);
                Self::lemma_slot_in_hit(cs.push(n).drop_last(), a, r);
                assert(cs.push(n).drop_last() =~= cs);
                Self::lemma_slot_in_hit(f, a, r);
            } else {
                Self::lemma_slot_in_miss(cs, r);
                assert forall|a: int| 0 <= a < f.len() implies !is_prefix(#[trigger] f[a].prefix@, r) by {
                    if a < m {
                        assert(f[a] == cs[a]);
                    }
                }
                Self::lemma_slot_in_miss(f, r);
            }
        }
    }

    /// The keys (counted from this node's own prefix on) that have a node.
    pub(crate) open spec fn keys(self) -> Set<Seq<u8>> {
        Set::new(|k: Seq<u8>| self.slot(k) is Some)
    }

    /// The keys that have a node among the subtrees of `cs`.
    pub(crate) open spec fn keys_in(cs: Seq<TrieNode<V>>) -> Set<Seq<u8>> {
        Set::new(|r: Seq<u8>| Self::slot_in(cs, r) is Some)
    }

    /// A slot among siblings is found in one of them, which starts the key.
    pub(crate) proof fn lemma_slot_in_found(cs: Seq<TrieNode<V>>, rest: Seq<u8>)
        requires
            Self::slot_in(cs, rest) is Some,
        ensures
            exists|j: int| 0 <= j < cs.len() && is_prefix(#[trigger] cs[j].prefix@, rest),
    {
        if !exists|j: int| 0 <= j < cs.len() && is_prefix(#[trigger] cs[j].prefix@, rest) {
            Self::lemma_slot_in_miss(cs, rest);
        }
    }

    /// Every node of a list of well-formed siblings has its own key.
    pub(crate) proof fn lemma_count_keys_in(cs: Seq<TrieNode<V>>)
        requires
            Self::siblings_ok(cs),
            forall|i: int| 0 <= i < cs.len() ==> (#[trigger] cs[i]).child_ok() && cs[i].shape(),
        ensures
            Self::keys_in(cs).finite(),
            Self::keys_in(cs).len() == Self::count_in(cs),
            forall|r: Seq<u8>| #[trigger] Self::keys_in(cs).contains(r) ==> r.len() > 0,
        decreases cs,
    {
        if cs.len() == 0 {
            assert(Self::keys_in(cs) =~= Set::<Seq<u8>>::empty());
        } else {
            let d = cs.drop_last();
            let l = cs.last();
            let n = cs.len() - 1;
            assert forall|a: int| 0 <= a < d.len() implies #[trigger] d[a] == cs[a] by {}
            assert(Self::siblings_ok(d)) by {
                assert forall|a: int, b: int|
                    0 <= a < d.len() && 0 <= b < d.len() && a != b implies !is_prefix(
                    #[trigger] d[a].prefix@,
                    #[trigger] d[b].prefix@,
                ) by {
                    assert(d[a] == cs[a] && d[b] == cs[b]);
                }
            }
            assert(l == cs[n]);
            Self::lemma_count_keys_in(d);
            Self::lemma_count_keys(l);
            assert(Self::keys_in(cs) =~= Self::keys_in(d) + l.keys());
            assert forall|r: Seq<u8>| #[trigger] l.keys().contains(r) implies !Self::keys_in(d).contains(r) by {
                l.lemma_slot_matches(r);
                assert forall|j: int| 0 <= j < d.len() implies !is_prefix(#[trigger] d[j].prefix@, r) by {
                    Self::lemma_one_match(cs, n, j, r);
                }
                Self::lemma_slot_in_miss(d, r);
            }
            assert(Self::keys_in(d).disjoint(l.keys()));
            vstd::set_lib::lemma_set_disjoint_lens(Self::keys_in(d), l.keys());
            assert forall|r: Seq<u8>| #[trigger] Self::keys_in(cs).contains(r) implies r.len() > 0 by {
                Self::lemma_slot_in_found(cs, r);
                let j = choose|j: int| 0 <= j < cs.len() && is_prefix(#[trigger] cs[j].prefix@, r);
                assert(cs[j].child_ok());
            }
        }
    }

    /// Every node of a well-formed subtree has its own key: the node count is the number
    /// of keys with a node.
    pub(crate) proof fn lemma_count_keys(self)
        requires
            self.shape(),
        ensures
            self.keys().finite(),
            self.keys().len() == self.count(),
        decreases self,
    {
        let cs = self.children@;
        let p = self.prefix@;
        assert forall|i: int| 0 <= i < cs.len() implies (#[trigger] cs[i]).child_ok() && cs[i].shape() by {}
        Self::lemma_count_keys_in(cs);
        let below = Self::keys_in(cs);
        let f = |r: Seq<u8>| p + r;
        let m = below.map(f);
        assert forall|a: Seq<u8>, b: Seq<u8>|
            below.contains(a) && below.contains(b) && #[trigger] f(a) == #[trigger] f(b) implies a == b by {
            lemma_concat_prefix(p, a);
            lemma_concat_prefix(p, b);
        }
        vstd::set_lib::lemma_map_size(below, m, f);
        assert forall|k: Seq<u8>| #[trigger] self.keys().contains(k) == m.insert(p).contains(k) by {
            if k != p && is_prefix(p, k) {
                lemma_prefix_skip(p, k);
                if below.contains(k.skip(p.len() as int)) {
                    assert(f(k.skip(p.len() as int)) == k);
                }
            }
            if m.contains(k) {
                let r = choose|r: Seq<u8>| below.contains(r) && k == f(r);
                lemma_concat_prefix(p, r);
                assert(r.len() > 0);
                assert(k.len() > p.len());
            }
        }
        assert(self.keys() =~= m.insert(p));
        assert(!m.contains(p)) by {
            if m.contains(p) {
                let r = choose|r: Seq<u8>| below.contains(r) && p == f(r);
                assert(r.len() > 0);
                assert((p + r).len() > p.len());
            }
        }
    }

    /// How the node count of a list of siblings follows its edits.
    pub(crate) proof fn lemma_count_in_push(cs: Seq<TrieNode<V>>, c: TrieNode<V>)
        ensures
            Self::count_in(cs.push(c)) == Self::count_in(cs) + c.count(),
    {
        assert(cs.push(c).drop_last() =~= cs);
    }

    pub(crate) proof fn lemma_count_in_take(cs: Seq<TrieNode<V>>, i: int)
        requires
            0 <= i < cs.len(),
        ensures
            Self::count_in(cs.take(i + 1)) == Self::count_in(cs.take(i)) + cs[i].count(),
    {
        assert(cs.take(i + 1) =~= cs.take(i).push(cs[i]));
        Self::lemma_count_in_push(cs.take(i), cs[i]);
    }

    pub(crate) proof fn lemma_count_in_take_le(cs: Seq<TrieNode<V>>, i: int)
        requires
            0 <= i <= cs.len(),
        ensures
            Self::count_in(cs.take(i)) <= Self::count_in(cs),
        decreases cs.len() - i,
    {
        if i < cs.len() {
            Self::lemma_count_in_take(cs, i);
            Self::lemma_count_in_take_le(cs, i + 1);
        } else {
            assert(cs.take(i) =~= cs);
        }
    }

    pub(crate) proof fn lemma_count_in_remove(cs: Seq<TrieNode<V>>, i: int)
        requires
            0 <= i < cs.len(),
        ensures
            Self::count_in(cs.remove(i)) + cs[i].count() == Self::count_in(cs),
        decreases cs.len(),
    {
        let d = cs.drop_last();
        if i < cs.len() - 1 {
            assert(cs.remove(i) =~= d.remove(i).push(cs.last()));
            Self::lemma_count_in_push(d.remove(i), cs.last());
            Self::lemma_count_in_remove(d, i);
            assert(d[i] == cs[i]);
        } else {
            assert(cs.remove(i) =~= d);
        }
    }

    pub(crate) proof fn lemma_count_in_update(cs: Seq<TrieNode<V>>, i: int, c: TrieNode<V>)
        requires
            0 <= i < cs.len(),
        ensures
            Self::count_in(cs.update(i, c)) + cs[i].count() == Self::count_in(cs) + c.count(),
    {
        Self::lemma_count_in_remove(cs, i);
        Self::lemma_count_in_remove(cs.update(i, c), i);
        assert(cs.update(i, c).remove(i) =~= cs.remove(i));
    }

    /// The value stored under `key` (counted from position `at`), if any.
    pub(crate) fn get(&self, key: &[u8], at: usize) -> (r: Option<&V>)
        requires
            self.shape(),
            at <= key@.len(),
            is_prefix(self.prefix@, key@.skip(at as int)),
        ensures
            match r {
                Some(v) => self.lookup(key@.skip(at as int)) == Some(*v),
                None => self.lookup(key@.skip(at as int)) is None,
            },
        decreases key@.len() - at - self.prefix@.len(),
    {
        let klen = key.len();
        assert(self.prefix@.len() <= key@.len() - at);
        let end = at + self.prefix.len();
        if end == klen {
            proof {
                assert(key@.skip(at as int) =~= self.prefix@);
            }
            return self.value.as_ref();
        }
        let ghost k = key@.skip(at as int);
        proof {
            assert(k.skip(self.prefix@.len() as int) =~= key@.skip(end as int));
        }
        let mut i: usize = 0;
        while i < self.children.len()
            invariant
                self.shape(),
                at <= end < key@.len(),
                end == at + self.prefix@.len(),
                k == key@.skip(at as int),
                k != self.prefix@,
                is_prefix(self.prefix@, k),
                k.skip(self.prefix@.len() as int) == key@.skip(end as int),
                forall|j: int|
                    0 <= j < i ==> !is_prefix(#[trigger] self.children@[j].prefix@, key@.skip(end as int)),
            decreases self.children@.len() - i,
        {
            if starts_with_at(key, end, &self.children[i].prefix) {
                proof {
                    Self::lemma_slot_in_hit(self.children@, i as int, key@.skip(end as int));
                }
                return self.children[i].get(key, end);
            }
            i += 1;
        }
        proof {
            Self::lemma_slot_in_miss(self.children@, key@.skip(end as int));
        }
        None
    }

    /// The index of the child whose prefix starts what follows position `at` of `key`,
    /// or the number of children where there is none.
    pub(crate) fn leaf(&self, key: &[u8], at: usize) -> (r: usize)
        requires
            at <= key@.len(),
        ensures
            r <= self.children@.len(),
            r < self.children@.len() ==> is_prefix(self.children@[r as int].prefix@, key@.skip(at as int)),
            r == self.children@.len() ==> forall|j: int|
                0 <= j < self.children@.len() ==> !is_prefix(
                    #[trigger] self.children@[j].prefix@,
                    key@.skip(at as int),
                ),
    {
        let mut i: usize = 0;
        while i < self.children.len()
            invariant
                at <= key@.len(),
                0 <= i <= self.children@.len(),
                forall|j: int|
                    0 <= j < i ==> !is_prefix(#[trigger] self.children@[j].prefix@, key@.skip(at as int)),
            decreases self.children@.len() - i,
        {
            if starts_with_at(key, at, self.children[i].prefix.as_slice()) {
                return i;
            }
            i += 1;
        }
        i
    }

    /// The index of the first node of `cs` whose prefix starts with `p`, or `cs.len()`.
    pub(crate) fn insert_split_target(cs: &Vec<TrieNode<V>>, p: &[u8]) -> (r: usize)
        ensures
            r <= cs@.len(),
            r < cs@.len() ==> is_prefix(p@, cs@[r as int].prefix@),
            r == cs@.len() ==> forall|j: int|
                0 <= j < cs@.len() ==> !is_prefix(p@, #[trigger] cs@[j].prefix@),
    {
        let mut i: usize = 0;
        while i < cs.len()
            invariant
                0 <= i <= cs@.len(),
                forall|j: int| 0 <= j < i ==> !is_prefix(p@, #[trigger] cs@[j].prefix@),
            decreases cs@.len() - i,
        {
            if starts_with_at(cs[i].prefix.as_slice(), 0, p) {
                proof {
                    assert(cs@[i as int].prefix@.skip(0) =~= cs@[i as int].prefix@);
                }
                return i;
            }
            proof {
                assert(cs@[i as int].prefix@.skip(0) =~= cs@[i as int].prefix@);
            }
            i += 1;
        }
        i
    }

    /// The index of the first node of `cs` whose prefix is `p`, or `cs.len()`.
    pub(crate) fn index_of_prefix(cs: &Vec<TrieNode<V>>, p: &[u8]) -> (r: usize)
        ensures
            r <= cs@.len(),
            r < cs@.len() ==> cs@[r as int].prefix@ == p@,
            r == cs@.len() ==> forall|j: int| 0 <= j < cs@.len() ==> (#[trigger] cs@[j]).prefix@ != p@,
    {
        let mut i: usize = 0;
        while i < cs.len()
            invariant
                0 <= i <= cs@.len(),
                forall|j: int| 0 <= j < i ==> (#[trigger] cs@[j]).prefix@ != p@,
            decreases cs@.len() - i,
        {
            let same = cs[i].prefix.len() == p.len() && starts_with_at(cs[i].prefix.as_slice(), 0, p);
            proof {
                let q = cs@[i as int].prefix@;
                assert(q.skip(0) =~= q);
                if q.len() == p@.len() && is_prefix(p@, q) {
                    assert(q =~= p@);
                }
            }
            if same {
                return i;
            }
            i += 1;
        }
        i
    }

    /// Drops the child whose prefix is `prefix`.
    pub(crate) fn evict_node_with_prefix(&mut self, prefix: &[u8])
        requires
            exists|j: int|
                0 <= j < old(self).children@.len() && (#[trigger] old(self).children@[j]).prefix@
                    == prefix@,
        ensures
            final(self).prefix == old(self).prefix,
            final(self).value == old(self).value,
            exists|j: int|
                0 <= j < old(self).children@.len() && (#[trigger] old(self).children@[j]).prefix@
                    == prefix@ && final(self).children@ == old(self).children@.remove(j),
    {
        let i = Self::index_of_prefix(&self.children, prefix);
        let ghost cs = self.children@;
        self.children.remove(i);
        proof {
            assert(cs[i as int].prefix@ == prefix@);
        }
    }

    /// Merges a hollow node with its only child: the child's prefix is appended to this
    /// node's, and its value and children become this node's.
    pub(crate) fn take_below(&mut self)
        requires
            old(self).children@.len() == 1,
            old(self).value is None,
            old(self).shape(),
        ensures
            final(self).prefix@ == old(self).prefix@ + old(self).children@[0].prefix@,
            final(self).value == old(self).children@[0].value,
            final(self).children@ == old(self).children@[0].children@,
            final(self).shape(),
            final(self).child_ok(),
            forall|k: Seq<u8>|
                #[trigger] final(self).slot(k) == if k == old(self).prefix@ {
                    None
                } else {
                    old(self).slot(k)
                },
            final(self).count() + 1 == old(self).count(),
    {
        let ghost s0 = *self;
        let c = self.children.pop().unwrap();
        proof {
            assert(s0.children@ =~= seq![c]);
            assert(seq![c].drop_last() =~= Seq::<TrieNode<V>>::empty());
        }
        proof {
            assert(s0.children@[0] == c);
            assert(c.child_ok() && c.shape());
            assert(s0.children@.last() == c);
            assert(s0.children@.drop_last() == Seq::<TrieNode<V>>::empty());
            assert(Self::count_in(Seq::<TrieNode<V>>::empty()) == 0);
            assert(Self::count_in(s0.children@) == c.count());
        }
        let TrieNode { prefix: mut cp, children: cc, value: cv } = c;
        self.prefix.append(&mut cp);
        self.value = cv;
        self.children = cc;
        proof {
            let p = s0.prefix@;
            assert forall|k: Seq<u8>|
                #[trigger] self.slot(k) == if k == p {
                    None
                } else {
                    s0.slot(k)
                } by {
                if k == p {
                    assert(self.prefix@.len() > k.len());
                    assert(self.prefix@ != k);
                    assert(!is_prefix(self.prefix@, k));
                } else if is_prefix(p, k) {
                    let k2 = k.skip(p.len() as int);
                    lemma_prefix_skip(p, k);
                    Self::lemma_slot_shift(*self, c, p, k2);
                    assert(s0.children@.last() == c);
                    assert(s0.children@.drop_last() == Seq::<TrieNode<V>>::empty());
                    assert(Self::slot_in(Seq::<TrieNode<V>>::empty(), k2) is None);
                    assert(Self::slot_in(s0.children@, k2) == c.slot(k2));
                } else {
                    Self::lemma_slot_shift(*self, c, p, k);
                    assert(self.slot(k) is None);
                }
            }
        }
    }

    /// Stores `value` under `key` (counted from position `at`), which must start with
    /// this node's prefix, and returns the value stored there before. Where the key
    /// runs past this node it descends into the child whose prefix starts the rest;
    /// where no child does, the children whose prefixes start with the rest are gathered
    /// under a new node for it, or, with none, it gets a new leaf. A node below the root
    /// left hollow with that single new child is merged with it.
    pub(crate) fn insert(&mut self, key: &[u8], at: usize, value: V) -> (r: Option<V>)
        requires
            old(self).shape(),
            at <= key@.len(),
            is_prefix(old(self).prefix@, key@.skip(at as int)),
        ensures
            final(self).shape(),
            is_prefix(old(self).prefix@, final(self).prefix@),
            final(self).prefix@ == old(self).prefix@ || (old(self).prefix@.len() > 0
                && old(self).value is None && final(self).prefix@ == key@.skip(at as int)
                && final(self).value == Some(value)),
            old(self).child_ok() ==> final(self).child_ok(),
            forall|k: Seq<u8>|
                #[trigger] final(self).lookup(k) == if k == key@.skip(at as int) {
                    Some(value)
                } else {
                    old(self).lookup(k)
                },
            forall|k: Seq<u8>|
                #[trigger] final(self).slot(k) is Some ==> old(self).slot(k) is Some || k == key@.skip(
                    at as int,
                ),
            r == old(self).lookup(key@.skip(at as int)),
            old(self).slot(key@.skip(at as int)) is Some ==> final(self).count() == old(self).count(),
            old(self).count() <= final(self).count() <= old(self).count() + 1,
            ({
                let rest = key@.skip(at as int).skip(old(self).prefix@.len() as int);
                let oc = old(self).children@;
                let nc = final(self).children@;
                key@.skip(at as int) != old(self).prefix@ && (forall|j: int|
                    0 <= j < oc.len() ==> !is_prefix(#[trigger] oc[j].prefix@, rest))
                    && final(self).prefix@ == old(self).prefix@ ==> {
                    &&& nc.len() >= 1
                    &&& nc.last().prefix@ == rest
                    &&& nc.last().value == Some(value)
                    &&& nc.last().children@.len() + nc.len() == oc.len() + 1
                    &&& forall|j: int|
                        0 <= j < oc.len() && is_prefix(rest, #[trigger] oc[j].prefix@) ==> exists|b: int|
                            0 <= b < nc.last().children@.len() && (#[trigger] nc.last().children@[b]).prefix@
                                == oc[j].prefix@.skip(rest.len() as int) && nc.last().children@[b].value
                                == oc[j].value && nc.last().children@[b].children@
                                == oc[j].children@
                    &&& forall|j: int|
                        0 <= j < oc.len() && !is_prefix(rest, #[trigger] oc[j].prefix@) ==> exists|a: int|
                            0 <= a < nc.len() - 1 && nc[a] == oc[j]
                }
            }),
        decreases key@.len() - at - old(self).prefix@.len(),
    {
        let ghost s0 = *self;
        let ghost whole = key@.skip(at as int);
        let ghost p = self.prefix@;
        let klen = key.len();
        assert(p.len() <= key@.len() - at);
        let end = at + self.prefix.len();
        proof {
            lemma_prefix_refl(p);
        }
        if end == klen {
            proof {
                assert(whole =~= p);
            }
            let prev = self.value.take();
            self.value = Some(value);
            return prev;
        }
        let ghost rest = key@.skip(end as int);
        proof {
            assert(whole.skip(p.len() as int) =~= rest);
            lemma_prefix_skip(p, whole);
        }
        let i = self.leaf(key, end);
        if i < self.children.len() {
            let ghost cs = self.children@;
            let ghost c = cs[i as int];
            let r = self.children[i].insert(key, end, value);
            proof {
                let c2 = self.children@[i as int];
                assert(self.children@ == cs.update(i as int, c2));
                Self::lemma_count_in_update(cs, i as int, c2);
                Self::lemma_slot_in_hit(cs, i as int, rest);
                Self::lemma_slot_in_update(cs, i as int, c2, rest);
                assert forall|j: int| 0 <= j < self.children@.len() implies (
                #[trigger] self.children@[j]).child_ok() && self.children@[j].shape() by {
                    if j != i {
                        assert(self.children@[j] == cs[j]);
                    }
                }
                assert forall|k: Seq<u8>|
                    #[trigger] self.lookup(k) == if k == whole {
                        Some(value)
                    } else {
                        s0.lookup(k)
                    } by {
                    if is_prefix(p, k) && k != p {
                        let k2 = k.skip(p.len() as int);
                        Self::lemma_slot_in_update(cs, i as int, c2, k2);
                        Self::lemma_same_rest(p, k, whole);
                        if is_prefix(c.prefix@, k2) {
                            Self::lemma_slot_in_hit(cs, i as int, k2);
                            assert(c2.lookup(k2) == if k2 == rest {
                                Some(value)
                            } else {
                                c.lookup(k2)
                            });
                        }
                    }
                }
                assert forall|k: Seq<u8>| #[trigger] self.slot(k) is Some implies s0.slot(k) is Some
                    || k == whole by {
                    Self::lemma_child_replaced(s0, *self, i as int, c2, k);
                    if is_prefix(p, k) && k != p {
                        let k2 = k.skip(p.len() as int);
                        Self::lemma_same_rest(p, k, whole);
                        if is_prefix(c.prefix@, k2) {
                            Self::lemma_slot_in_hit(cs, i as int, k2);
                            assert(c2.slot(k2) is Some ==> c.slot(k2) is Some || k2 == rest);
                        }
                    }
                }
            }
            return r;
        }
        let ghost oc = self.children@;
        proof {
            Self::lemma_slot_in_miss(oc, rest);
        }
        let rest_v = suffix_of(key, end);
        let rlen = rest_v.len();
        let mut cs: Vec<TrieNode<V>> = Vec::new();
        std::mem::swap(&mut cs, &mut self.children);
        let mut moved: Vec<TrieNode<V>> = Vec::new();
        let ghost mut f = cs@;
        let mut j = Self::insert_split_target(&cs, rest_v.as_slice());
        while j < cs.len()
            invariant
                rest_v@ == rest,
                rlen == rest.len(),
                rest.len() > 0,
                j <= cs@.len(),
                j < cs@.len() ==> is_prefix(rest, cs@[j as int].prefix@),
                j == cs@.len() ==> forall|a: int|
                    0 <= a < cs@.len() ==> !is_prefix(rest, #[trigger] cs@[a].prefix@),
                Self::siblings_ok(f),
                forall|r2: Seq<u8>| #[trigger] Self::slot_in(f, r2) == Self::slot_in(oc, r2),
                f.len() == oc.len(),
                forall|j2: int|
                    0 <= j2 < oc.len() ==> exists|a: int| 0 <= a < f.len() && f[a] == #[trigger] oc[j2],
                Self::count_in(oc) == Self::count_in(cs@) + Self::count_in(moved@),
                f.len() == cs@.len() + moved@.len(),
                forall|a: int| 0 <= a < cs@.len() ==> f[a] == #[trigger] cs@[a],
                forall|b: int|
                    0 <= b < moved@.len() ==> f[cs@.len() + b].prefix@ == rest
                        + (#[trigger] moved@[b]).prefix@ && f[cs@.len() + b].value
                        == moved@[b].value && f[cs@.len() + b].children@ == moved@[b].children@,
                forall|b: int|
                    0 <= b < moved@.len() ==> (#[trigger] moved@[b]).child_ok()
                        && moved@[b].shape(),
                forall|a: int|
                    0 <= a < cs@.len() ==> !is_prefix((#[trigger] cs@[a]).prefix@, rest)
                        && cs@[a].child_ok() && cs@[a].shape(),
            decreases cs@.len(),
        {
            let ghost cs0 = cs@;
            let ghost mv0 = moved@;
            let mut c = cs.remove(j);
            proof {
                lemma_prefix_refl(rest);
                lemma_prefix_skip(rest, c.prefix@);
                Self::lemma_count_in_remove(cs0, j as int);
            }
            let ghost c0 = c;
            let tail = c.prefix.split_off(rlen);
            c.prefix = tail;
            moved.push(c);
            proof {
                assert(c.count() == c0.count());
                Self::lemma_count_in_push(mv0, c);
                assert forall|r2: Seq<u8>|
                    #[trigger] Self::slot_in(f.remove(j as int).push(f[j as int]), r2)
                        == Self::slot_in(oc, r2) by {
                    Self::lemma_slot_in_rotate(f, j as int, r2);
                }
                Self::lemma_slot_in_rotate(f, j as int, rest);
                let fj = f[j as int];
                let f0 = f;
                f = f.remove(j as int).push(fj);
                assert forall|j2: int| 0 <= j2 < oc.len() implies exists|a: int|
                    0 <= a < f.len() && f[a] == #[trigger] oc[j2] by {
                    let a0 = choose|a: int| 0 <= a < f0.len() && f0[a] == oc[j2];
                    if a0 == j {
                        assert(f[f.len() - 1] == oc[j2]);
                    } else if a0 < j {
                        assert(f[a0] == oc[j2]);
                    } else {
                        assert(f[a0 - 1] == oc[j2]);
                    }
                }
                assert forall|a: int| 0 <= a < cs@.len() implies f[a] == #[trigger] cs@[a] by {
                    if a < j {
                        assert(cs@[a] == cs0[a]);
                    } else {
                        assert(cs@[a] == cs0[a + 1]);
                    }
                }
                assert forall|b: int|
                    0 <= b < moved@.len() implies f[cs@.len() + b].prefix@ == rest
                    + (#[trigger] moved@[b]).prefix@ && f[cs@.len() + b].value == moved@[b].value
                    && f[cs@.len() + b].children@ == moved@[b].children@ by {
                    if b < mv0.len() {
                        assert(moved@[b] == mv0[b]);
                    } else {
                        assert(moved@[b] == c);
                    }
                }
                assert forall|b: int|
                    0 <= b < moved@.len() implies (#[trigger] moved@[b]).child_ok()
                    && moved@[b].shape() by {
                    if b < mv0.len() {
                        assert(moved@[b] == mv0[b]);
                    } else {
                        assert(moved@[b] == c);
                        assert(c.prefix@.len() > 0);
                    }
                }
                assert forall|a: int|
                    0 <= a < cs@.len() implies !is_prefix((#[trigger] cs@[a]).prefix@, rest)
                    && cs@[a].child_ok() && cs@[a].shape() by {
                    if a < j {
                        assert(cs@[a] == cs0[a]);
                    } else {
                        assert(cs@[a] == cs0[a + 1]);
                    }
                }
            }
            j = Self::insert_split_target(&cs, rest_v.as_slice());
        }
        let ghost cs_s = cs@;
        let ghost mv_s = moved@;
        let n = TrieNode { prefix: rest_v, children: moved, value: Some(value) };
        cs.push(n);
        self.children = cs;
        proof {
            assert(self.children@.last() == n);
            assert forall|j2: int|
                0 <= j2 < oc.len() && is_prefix(rest, #[trigger] oc[j2].prefix@) implies exists|b: int|
                    0 <= b < n.children@.len() && (#[trigger] n.children@[b]).prefix@
                        == oc[j2].prefix@.skip(rest.len() as int) && n.children@[b].value
                        == oc[j2].value && n.children@[b].children@ == oc[j2].children@ by {
                let a = choose|a: int| 0 <= a < f.len() && f[a] == oc[j2];
                if a < cs_s.len() {
                    assert(f[a] == cs_s[a]);
                    assert(false);
                }
                let b = a - cs_s.len();
                assert(f[cs_s.len() + b].prefix@ == rest + mv_s[b].prefix@);
                lemma_concat_prefix(rest, mv_s[b].prefix@);
                assert(n.children@[b] == mv_s[b]);
            }
            assert forall|j2: int|
                0 <= j2 < oc.len() && !is_prefix(rest, #[trigger] oc[j2].prefix@) implies exists|a: int|
                    0 <= a < self.children@.len() - 1 && self.children@[a] == oc[j2] by {
                let a = choose|a: int| 0 <= a < f.len() && f[a] == oc[j2];
                if a >= cs_s.len() {
                    let b = a - cs_s.len();
                    assert(f[cs_s.len() + b].prefix@ == rest + mv_s[b].prefix@);
                    lemma_concat_prefix(rest, mv_s[b].prefix@);
                    assert(false);
                }
                assert(self.children@[a] == cs_s[a]);
            }
            assert(Self::count_in(n.children@) == Self::count_in(mv_s));
            Self::lemma_count_in_push(cs_s, n);
            Self::lemma_split(f, cs_s, mv_s, rest, n, rest);
            assert forall|j2: int| 0 <= j2 < self.children@.len() implies (
            #[trigger] self.children@[j2]).child_ok() && self.children@[j2].shape() by {
                if j2 < cs_s.len() {
                    assert(self.children@[j2] == cs_s[j2]);
                } else {
                    assert(self.children@[j2] == n);
                }
            }
            assert forall|k: Seq<u8>|
                #[trigger] self.slot(k) == if k == whole {
                    Some(Some(value))
                } else {
                    s0.slot(k)
                } by {
                if is_prefix(p, k) && k != p {
                    let k2 = k.skip(p.len() as int);
                    Self::lemma_split(f, cs_s, mv_s, rest, n, k2);
                    Self::lemma_same_rest(p, k, whole);
                }
            }
        }
        if self.prefix.len() > 0 && self.value.is_none() && self.children.len() == 1 {
            let ghost s1 = *self;
            self.take_below();
            proof {
                assert(s1.children@[0] == n);
                assert(self.prefix@ =~= whole);
                assert forall|k: Seq<u8>| #[trigger] self.lookup(k) == s1.lookup(k) by {
                    assert(self.slot(k) == if k == p { None } else { s1.slot(k) });
                }
                assert forall|k: Seq<u8>| #[trigger] self.slot(k) is Some implies s0.slot(k) is Some
                    || k == whole by {
                    assert(self.slot(k) == if k == p { None } else { s1.slot(k) });
                }
                lemma_concat_prefix(p, s1.children@[0].prefix@);
            }
        }
        None
    }

    /// A node whose child `i` was replaced by `c2`, whose prefix extends the old one, has
    /// the lookups of the old node but under the keys that ran through the old child,
    /// which it takes from `c2`.
    pub(crate) proof fn lemma_child_replaced(n: TrieNode<V>, m: TrieNode<V>, i: int, c2: TrieNode<V>, k: Seq<u8>)
        requires
            n.shape(),
            0 <= i < n.children@.len(),
            m.prefix@ == n.prefix@,
            m.value == n.value,
            m.children@ == n.children@.update(i, c2),
            is_prefix(n.children@[i].prefix@, c2.prefix@),
            c2.child_ok(),
            c2.shape(),
        ensures
            m.shape(),
            n.child_ok() ==> m.child_ok(),
            m.count() + n.children@[i].count() == n.count() + c2.count(),
            m.slot(k) == if is_prefix(n.prefix@, k) && k != n.prefix@ && is_prefix(
                n.children@[i].prefix@,
                k.skip(n.prefix@.len() as int),
            ) {
                c2.slot(k.skip(n.prefix@.len() as int))
            } else {
                n.slot(k)
            },
            m.lookup(k) == if is_prefix(n.prefix@, k) && k != n.prefix@ && is_prefix(
                n.children@[i].prefix@,
                k.skip(n.prefix@.len() as int),
            ) {
                c2.lookup(k.skip(n.prefix@.len() as int))
            } else {
                n.lookup(k)
            },
    {
        let cs = n.children@;
        Self::lemma_slot_in_update(cs, i, c2, k.skip(n.prefix@.len() as int));
        Self::lemma_count_in_update(cs, i, c2);
        assert forall|j: int| 0 <= j < m.children@.len() implies (#[trigger] m.children@[j]).child_ok()
            && m.children@[j].shape() by {
            if j != i {
                assert(m.children@[j] == cs[j]);
            }
        }
    }

    /// What holds of every node `m` made from `n` by replacing child `i` with one of the
    /// same prefix: outside the keys that run through that child its lookups are `n`'s,
    /// and inside they are the new child's.
    pub(crate) proof fn lemma_child_zone(n: TrieNode<V>, i: int, rest: Seq<u8>, whole: Seq<u8>)
        requires
            n.shape(),
            0 <= i < n.children@.len(),
            is_prefix(n.children@[i].prefix@, rest),
            is_prefix(n.prefix@, whole),
            whole.skip(n.prefix@.len() as int) == rest,
        ensures
            forall|m: TrieNode<V>, k: Seq<u8>|
                m.prefix@ == n.prefix@ && m.value == n.value && m.children@ == n.children@.update(
                    i,
                    m.children@[i],
                ) && m.children@[i].prefix@ == n.children@[i].prefix@ && m.children@[i].child_ok()
                    && m.children@[i].shape() ==> #[trigger] m.lookup(k) == if is_prefix(
                    n.prefix@,
                    k,
                ) && k != n.prefix@ && is_prefix(
                    n.children@[i].prefix@,
                    k.skip(n.prefix@.len() as int),
                ) {
                    m.children@[i].lookup(k.skip(n.prefix@.len() as int))
                } else {
                    n.lookup(k)
                },
            forall|m: TrieNode<V>, k: Seq<u8>|
                m.prefix@ == n.prefix@ && m.value == n.value && m.children@ == n.children@.update(
                    i,
                    m.children@[i],
                ) && m.children@[i].prefix@ == n.children@[i].prefix@ && m.children@[i].child_ok()
                    && m.children@[i].shape() ==> #[trigger] m.slot(k) == if is_prefix(
                    n.prefix@,
                    k,
                ) && k != n.prefix@ && is_prefix(
                    n.children@[i].prefix@,
                    k.skip(n.prefix@.len() as int),
                ) {
                    m.children@[i].slot(k.skip(n.prefix@.len() as int))
                } else {
                    n.slot(k)
                },
            forall|k: Seq<u8>|
                is_prefix(n.prefix@, k) && k != n.prefix@ && is_prefix(
                    n.children@[i].prefix@,
                    k.skip(n.prefix@.len() as int),
                ) ==> #[trigger] n.slot(k) == n.children@[i].slot(k.skip(n.prefix@.len() as int)),
            forall|m: TrieNode<V>|
                m.prefix@ == n.prefix@ && m.value == n.value && m.children@ == n.children@.update(
                    i,
                    m.children@[i],
                ) && m.children@[i].prefix@ == n.children@[i].prefix@ && m.children@[i].child_ok()
                    && m.children@[i].shape() ==> #[trigger] m.count() + n.children@[i].count()
                    == n.count() + m.children@[i].count(),
            forall|k: Seq<u8>|
                is_prefix(n.prefix@, k) && k != n.prefix@ && is_prefix(
                    n.children@[i].prefix@,
                    k.skip(n.prefix@.len() as int),
                ) ==> #[trigger] n.lookup(k) == n.children@[i].lookup(k.skip(n.prefix@.len() as int))
                    && ((k == whole) == (k.skip(n.prefix@.len() as int) == rest)),
            forall|k: Seq<u8>|
                #![trigger n.lookup(k)]
                !(is_prefix(n.prefix@, k) && k != n.prefix@ && is_prefix(
                    n.children@[i].prefix@,
                    k.skip(n.prefix@.len() as int),
                )) ==> k != whole,
            whole != n.prefix@,
    {
        let p = n.prefix@;
        let c = n.children@[i];
        lemma_prefix_skip(p, whole);
        if whole == p {
            assert(rest =~= Seq::<u8>::empty());
            assert(c.child_ok());
        }
        assert forall|m: TrieNode<V>, k: Seq<u8>|
            m.prefix@ == n.prefix@ && m.value == n.value && m.children@ == n.children@.update(
                i,
                m.children@[i],
            ) && m.children@[i].prefix@ == n.children@[i].prefix@ && m.children@[i].child_ok()
                && m.children@[i].shape() implies #[trigger] m.lookup(k) == if is_prefix(p, k) && k
            != p && is_prefix(c.prefix@, k.skip(p.len() as int)) {
            m.children@[i].lookup(k.skip(p.len() as int))
        } else {
            n.lookup(k)
        } by {
            lemma_prefix_refl(c.prefix@);
            Self::lemma_child_replaced(n, m, i, m.children@[i], k);
        }
        assert forall|m: TrieNode<V>, k: Seq<u8>|
            m.prefix@ == n.prefix@ && m.value == n.value && m.children@ == n.children@.update(
                i,
                m.children@[i],
            ) && m.children@[i].prefix@ == n.children@[i].prefix@ && m.children@[i].child_ok()
                && m.children@[i].shape() implies #[trigger] m.slot(k) == if is_prefix(p, k) && k
            != p && is_prefix(c.prefix@, k.skip(p.len() as int)) {
            m.children@[i].slot(k.skip(p.len() as int))
        } else {
            n.slot(k)
        } by {
            lemma_prefix_refl(c.prefix@);
            Self::lemma_child_replaced(n, m, i, m.children@[i], k);
        }
        assert forall|k: Seq<u8>|
            is_prefix(p, k) && k != p && is_prefix(
                c.prefix@,
                k.skip(p.len() as int),
            ) implies #[trigger] n.slot(k) == c.slot(k.skip(p.len() as int)) by {
            Self::lemma_slot_in_hit(n.children@, i, k.skip(p.len() as int));
        }
        assert forall|m: TrieNode<V>|
            m.prefix@ == n.prefix@ && m.value == n.value && m.children@ == n.children@.update(
                i,
                m.children@[i],
            ) && m.children@[i].prefix@ == n.children@[i].prefix@ && m.children@[i].child_ok()
                && m.children@[i].shape() implies #[trigger] m.count() + c.count() == n.count()
            + m.children@[i].count() by {
            lemma_prefix_refl(c.prefix@);
            Self::lemma_child_replaced(n, m, i, m.children@[i], p);
        }
        assert forall|k: Seq<u8>|
            is_prefix(p, k) && k != p && is_prefix(
                c.prefix@,
                k.skip(p.len() as int),
            ) implies #[trigger] n.lookup(k) == c.lookup(k.skip(p.len() as int)) && ((k == whole) == (
            k.skip(p.len() as int) == rest)) by {
            Self::lemma_slot_in_hit(n.children@, i, k.skip(p.len() as int));
            Self::lemma_same_rest(p, k, whole);
        }
        assert forall|k: Seq<u8>|
            #![trigger n.lookup(k)]
            !(is_prefix(p, k) && k != p && is_prefix(
                c.prefix@,
                k.skip(p.len() as int),
            )) implies k != whole by {
        }
    }

    /// The value stored under `key` (counted from position `at`), which must be present,
    /// as a mutable reference.
    pub(crate) fn get_mut(&mut self, key: &[u8], at: usize) -> (r: &mut V)
        requires
            old(self).shape(),
            at <= key@.len(),
            is_prefix(old(self).prefix@, key@.skip(at as int)),
            old(self).lookup(key@.skip(at as int)) is Some,
        ensures
            old(self).lookup(key@.skip(at as int)) == Some(*r),
            final(self).shape(),
            final(self).prefix@ == old(self).prefix@,
            old(self).child_ok() ==> final(self).child_ok(),
            final(self).count() == old(self).count(),
            forall|k: Seq<u8>| #[trigger] final(self).slot(k) is Some ==> old(self).slot(k) is Some,
            forall|k: Seq<u8>|
                #[trigger] final(self).lookup(k) == if k == key@.skip(at as int) {
                    Some(*final(r))
                } else {
                    old(self).lookup(k)
                },
        decreases key@.len() - at - old(self).prefix@.len(),
    {
        let ghost whole = key@.skip(at as int);
        let ghost p = self.prefix@;
        let klen = key.len();
        assert(p.len() <= key@.len() - at);
        let end = at + self.prefix.len();
        proof {
            lemma_prefix_refl(p);
        }
        if end == klen {
            proof {
                assert(whole =~= p);
            }
            return self.value.as_mut().unwrap();
        }
        let ghost rest = key@.skip(end as int);
        proof {
            assert(whole.skip(p.len() as int) =~= rest);
            lemma_prefix_skip(p, whole);
        }
        let i = self.leaf(key, end);
        proof {
            if i == self.children@.len() {
                Self::lemma_slot_in_miss(self.children@, rest);
            } else {
                Self::lemma_slot_in_hit(self.children@, i as int, rest);
            }
        }
        proof {
            Self::lemma_child_zone(*self, i as int, rest, whole);
        }
        self.children[i].get_mut(key, end)
    }

    /// Removes the value stored under `key` (counted from position `at`), a key that
    /// lies below this node, and returns it; where the key holds no value, returns `None`
    /// and leaves the node as it was.
    pub(crate) fn remove_internal(&mut self, key: &[u8], at: usize) -> (r: Option<V>)
        requires
            old(self).shape(),
            at <= key@.len(),
            is_prefix(old(self).prefix@, key@.skip(at as int)),
            key@.skip(at as int) != old(self).prefix@,
        ensures
            r == old(self).lookup(key@.skip(at as int)),
            r is None ==> *final(self) == *old(self),
            r is Some ==> {
                &&& final(self).shape()
                &&& is_prefix(old(self).prefix@, final(self).prefix@)
                &&& old(self).prefix@.len() == 0 ==> final(self).prefix@ == old(self).prefix@
                &&& old(self).child_ok() ==> final(self).child_ok()
                &&& forall|k: Seq<u8>|
                    #[trigger] final(self).lookup(k) == if k == key@.skip(at as int) {
                        None
                    } else {
                        old(self).lookup(k)
                    }
                &&& forall|k: Seq<u8>|
                    #[trigger] final(self).slot(k) is Some ==> old(self).slot(k) is Some
                &&& final(self).slot(key@.skip(at as int)) is Some ==> old(self).branches(
                    key@.skip(at as int),
                ) >= 2
                &&& final(self).count() <= old(self).count()
                &&& old(self).count() <= final(self).count() + 2
            },
    {
        if self.get(key, at).is_none() {
            return None;
        }
        Some(self.remove_present(key, at))
    }

    /// Removes the value stored under `key` (counted from position `at`), which must be
    /// present and must lie below this node, and repairs the tree: a child left without
    /// value and children is dropped, one left without value and with a single child is
    /// merged with it, and so is this node, where it lies below the root, has no value,
    /// and is left with a single child.
    pub(crate) fn remove_present(&mut self, key: &[u8], at: usize) -> (r: V)
        requires
            old(self).shape(),
            at <= key@.len(),
            is_prefix(old(self).prefix@, key@.skip(at as int)),
            key@.skip(at as int) != old(self).prefix@,
            old(self).lookup(key@.skip(at as int)) is Some,
        ensures
            old(self).lookup(key@.skip(at as int)) == Some(r),
            final(self).shape(),
            is_prefix(old(self).prefix@, final(self).prefix@),
            old(self).prefix@.len() == 0 ==> final(self).prefix@ == old(self).prefix@,
            old(self).child_ok() ==> final(self).child_ok(),
            forall|k: Seq<u8>|
                #[trigger] final(self).lookup(k) == if k == key@.skip(at as int) {
                    None
                } else {
                    old(self).lookup(k)
                },
            forall|k: Seq<u8>| #[trigger] final(self).slot(k) is Some ==> old(self).slot(k) is Some,
            final(self).slot(key@.skip(at as int)) is Some ==> old(self).branches(key@.skip(at as int))
                >= 2,
            final(self).count() <= old(self).count(),
            old(self).count() <= final(self).count() + 2,
        decreases key@.len() - at - old(self).prefix@.len(),
    {
        let ghost s0 = *self;
        let ghost whole = key@.skip(at as int);
        let ghost p = self.prefix@;
        let klen = key.len();
        assert(p.len() <= key@.len() - at);
        let end = at + self.prefix.len();
        proof {
            lemma_prefix_refl(p);
            lemma_prefix_skip(p, whole);
            if end == klen {
                assert(whole =~= p);
            }
        }
        let ghost rest = key@.skip(end as int);
        proof {
            assert(whole.skip(p.len() as int) =~= rest);
        }
        let i = self.leaf(key, end);
        proof {
            if i == self.children@.len() {
                Self::lemma_slot_in_miss(self.children@, rest);
            } else {
                Self::lemma_slot_in_hit(self.children@, i as int, rest);
            }
        }
        let ghost c = self.children@[i as int];
        proof {
            assert(c.child_ok() && c.shape());
            assert forall|k: Seq<u8>|
                is_prefix(p, k) && k != p && is_prefix(
                    c.prefix@,
                    k.skip(p.len() as int),
                ) implies #[trigger] s0.lookup(k) == c.lookup(k.skip(p.len() as int)) && ((k
                == whole) == (k.skip(p.len() as int) == rest)) by {
                Self::lemma_slot_in_hit(s0.children@, i as int, k.skip(p.len() as int));
                Self::lemma_same_rest(p, k, whole);
            }
        }
        if self.children[i].prefix.len() != klen - end {
            proof {
                if rest == c.prefix@ {
                    assert(rest.len() == klen - end);
                }
            }
            let r = self.children[i].remove_present(key, end);
            proof {
                let c2 = self.children@[i as int];
                assert forall|k: Seq<u8>|
                    #[trigger] self.lookup(k) == if k == whole {
                        None
                    } else {
                        s0.lookup(k)
                    } by {
                    Self::lemma_child_replaced(s0, *self, i as int, c2, k);
                }
                assert forall|k: Seq<u8>| #[trigger] self.slot(k) is Some implies s0.slot(k) is Some by {
                    Self::lemma_child_replaced(s0, *self, i as int, c2, k);
                    if is_prefix(p, k) && k != p && is_prefix(c.prefix@, k.skip(p.len() as int)) {
                        Self::lemma_slot_in_hit(s0.children@, i as int, k.skip(p.len() as int));
                    }
                }
                Self::lemma_child_replaced(s0, *self, i as int, c2, p);
                Self::lemma_child_replaced(s0, *self, i as int, c2, whole);
                Self::lemma_branches_in_hit(s0.children@, i as int, rest);
            }
            return r;
        }
        proof {
            assert(c.prefix@ =~= rest);
            Self::lemma_branches_in_hit(s0.children@, i as int, rest);
            assert(s0.branches(whole) == c.children@.len());
        }
        let v = self.children[i].value.take().unwrap();
        let ghost c1 = self.children@[i as int];
        let ghost s1 = *self;
        proof {
            assert(c1.prefix == c.prefix && c1.children == c.children && c1.value is None);
            lemma_prefix_refl(c.prefix@);
            assert forall|k2: Seq<u8>| #[trigger] c1.lookup(k2) == if k2 == rest {
                None
            } else {
                c.lookup(k2)
            } by {}
            assert forall|k2: Seq<u8>| #[trigger] c1.slot(k2) is Some == c.slot(k2) is Some by {}
        }
        let nc = self.children[i].children.len();
        if nc == 0 {
            let pfx = suffix_of(self.children[i].prefix.as_slice(), 0);
            proof {
                assert(pfx@ =~= c.prefix@);
                assert(s1.children@[i as int].prefix@ == pfx@);
                lemma_prefix_refl(c.prefix@);
                Self::lemma_slot_in_update(s0.children@, i as int, c1, rest);
                assert(s1.children@ == s0.children@.update(i as int, c1));
            }
            self.evict_node_with_prefix(pfx.as_slice());
            proof {
                let j = choose|j: int|
                    0 <= j < s1.children@.len() && (#[trigger] s1.children@[j]).prefix@ == pfx@
                        && self.children@ == s1.children@.remove(j);
                if j != i {
                    assert(is_prefix(s1.children@[i as int].prefix@, s1.children@[j].prefix@));
                }
                assert(self.children@ =~= s0.children@.remove(i as int));
                Self::lemma_slot_in_remove(s0.children@, i as int, rest);
                assert(self.slot(whole) is None);
            }
            proof {
                assert(self.children@ =~= s0.children@.remove(i as int));
                assert(c.children@.len() == 0);
                Self::lemma_count_in_remove(s0.children@, i as int);
                assert(Self::count_in(c.children@) == 0);
                assert forall|j: int| 0 <= j < self.children@.len() implies (
                #[trigger] self.children@[j]).child_ok() && self.children@[j].shape() by {
                    if j < i {
                        assert(self.children@[j] == s0.children@[j]);
                    } else {
                        assert(self.children@[j] == s0.children@[j + 1]);
                    }
                }
                assert forall|k: Seq<u8>|
                    #[trigger] self.lookup(k) == if k == whole {
                        None
                    } else {
                        s0.lookup(k)
                    } by {
                    Self::lemma_slot_in_remove(s0.children@, i as int, k.skip(p.len() as int));
                    if is_prefix(p, k) && k != p && is_prefix(c.prefix@, k.skip(p.len() as int)) {
                        if k.skip(p.len() as int) != rest {
                            assert(Self::slot_in(c.children@, k.skip(p.len() as int).skip(
                                c.prefix@.len() as int,
                            )) is None);
                        }
                    }
                }
                assert forall|k: Seq<u8>| #[trigger] self.slot(k) is Some implies s0.slot(k) is Some by {
                    Self::lemma_slot_in_remove(s0.children@, i as int, k.skip(p.len() as int));
                }
            }
        } else if nc == 1 {
            self.children[i].take_below();
            proof {
                let c2 = self.children@[i as int];
                assert(self.children@ =~= s0.children@.update(i as int, c2));
                lemma_concat_prefix(c1.prefix@, c1.children@[0].prefix@);
                lemma_prefix_trans(c.prefix@, c1.prefix@, c2.prefix@);
                assert forall|k: Seq<u8>|
                    #[trigger] self.lookup(k) == if k == whole {
                        None
                    } else {
                        s0.lookup(k)
                    } by {
                    Self::lemma_child_replaced(s0, *self, i as int, c2, k);
                    assert(c2.slot(k.skip(p.len() as int)) == if k.skip(p.len() as int) == c1.prefix@ {
                        None
                    } else {
                        c1.slot(k.skip(p.len() as int))
                    });
                    assert(c2.lookup(k.skip(p.len() as int)) == c1.lookup(k.skip(p.len() as int)));
                }
                assert forall|k: Seq<u8>| #[trigger] self.slot(k) is Some implies s0.slot(k) is Some by {
                    Self::lemma_child_replaced(s0, *self, i as int, c2, k);
                    if is_prefix(p, k) && k != p && is_prefix(c.prefix@, k.skip(p.len() as int)) {
                        Self::lemma_slot_in_hit(s0.children@, i as int, k.skip(p.len() as int));
                        assert(c2.slot(k.skip(p.len() as int)) is Some ==> c1.slot(k.skip(p.len() as int)) is Some);
                    }
                }
                Self::lemma_child_replaced(s0, *self, i as int, c2, p);
                Self::lemma_child_replaced(s0, *self, i as int, c2, whole);
                assert(c2.slot(rest) is None);
            }
        } else {
            proof {
                assert forall|k: Seq<u8>|
                    #[trigger] self.lookup(k) == if k == whole {
                        None
                    } else {
                        s0.lookup(k)
                    } by {
                    Self::lemma_child_replaced(s0, s1, i as int, c1, k);
                }
                assert forall|k: Seq<u8>| #[trigger] self.slot(k) is Some implies s0.slot(k) is Some by {
                    Self::lemma_child_replaced(s0, s1, i as int, c1, k);
                    if is_prefix(p, k) && k != p && is_prefix(c.prefix@, k.skip(p.len() as int)) {
                        Self::lemma_slot_in_hit(s0.children@, i as int, k.skip(p.len() as int));
                    }
                }
                Self::lemma_child_replaced(s0, s1, i as int, c1, p);
            }
        }
        if self.prefix.len() > 0 && self.value.is_none() && self.children.len() == 1 {
            let ghost s2 = *self;
            self.take_below();
            proof {
                assert forall|k: Seq<u8>| #[trigger] self.lookup(k) == s2.lookup(k) by {
                    assert(self.slot(k) == if k == p { None } else { s2.slot(k) });
                }
                assert forall|k: Seq<u8>| #[trigger] self.slot(k) is Some implies s2.slot(k) is Some by {
                    assert(self.slot(k) == if k == p { None } else { s2.slot(k) });
                }
                assert(self.slot(whole) == s2.slot(whole));
                lemma_concat_prefix(p, s2.children@[0].prefix@);
            }
        }
        v
    }

    /// The number of nodes in this subtree.
    pub(crate) fn size(&self) -> (r: usize)
        requires
            self.count() <= usize::MAX,
        ensures
            r == self.count(),
        decreases self,
    {
        let mut total: usize = 1;
        let mut i: usize = 0;
        while i < self.children.len()
            invariant
                0 <= i <= self.children@.len(),
                self.count() <= usize::MAX,
                total == 1 + Self::count_in(self.children@.take(i as int)),
            decreases self.children@.len() - i,
        {
            proof {
                Self::lemma_count_in_take(self.children@, i as int);
                Self::lemma_count_in_take_le(self.children@, i as int + 1);
            }
            let c = self.children[i].size();
            total = total + c;
            i += 1;
        }
        proof {
            assert(self.children@.take(i as int) =~= self.children@);
        }
        total
    }
}

} // verus!
