//! A compressed prefix tree (radix trie) that maps string keys to values.
use vstd::prelude::*;

use vstd::utf8::{
    decode_utf8, decode_utf8_encode_utf8, encode_utf8, encode_utf8_decode_utf8, encode_utf8_valid_utf8,
    valid_utf8,
};
use crate::key::is_prefix;
use crate::node::TrieNode;

verus! {

/// Distinct strings have distinct encodings.
proof fn lemma_encode_injective(a: Seq<char>, b: Seq<char>)
    ensures
        (encode_utf8(a) == encode_utf8(b)) == (a == b),
{
    encode_utf8_decode_utf8(a);
    encode_utf8_decode_utf8(b);
}

/// The error of a key that is already present (`set` overwrites instead, and never
/// returns it).
#[derive(Debug, Clone, Copy)]
pub struct KeyExistsError;

/// The error of a removal whose key holds no value.
#[derive(Debug, Clone, Copy)]
pub struct KeyNotFoundError;

/// A compressed prefix tree: a map from string keys to values of any type, in which
/// keys that share a beginning share the nodes that spell it.
///
/// Keys are held as their UTF-8 bytes. Each node carries a piece of key (its prefix);
/// the key of a node is the concatenation of the prefixes from the root down to it, and
/// is always a whole string. The root's prefix is empty. A node without a value (a
/// hollow node) stays only where it branches, or at the root.
pub struct Trie<V> {
    root: TrieNode<V>,
}

impl<V> View for Trie<V> {
    type V = Map<Seq<char>, V>;

    /// The keys that hold a value, each with its value.
    closed spec fn view(&self) -> Map<Seq<char>, V> {
        Map::new(
            |k: Seq<char>| self.root.lookup(encode_utf8(k)) is Some,
            |k: Seq<char>| self.root.lookup(encode_utf8(k))->Some_0,
        )
    }
}

impl<V> Trie<V> {
    /// The tree's invariant: an empty root prefix, siblings whose prefixes never start
    /// one another, no hollow node below the root with fewer than two children, a node
    /// count that `usize` can hold, and a key of valid UTF-8 for every node, so that no
    /// prefix begins or ends inside a character.
    pub closed spec fn wf(&self) -> bool {
        &&& self.root.shape()
        &&& self.root.prefix@ == Seq::<u8>::empty()
        &&& self.root.count() <= usize::MAX
        &&& forall|k: Seq<u8>| #[trigger] self.root.slot(k) is Some ==> valid_utf8(k)
    }

    /// Number of nodes, the root and hollow nodes included.
    pub closed spec fn node_count(&self) -> nat {
        self.root.count()
    }

    /// Whether a node (holding a value or hollow) stands for `key`.
    pub closed spec fn has_node(&self, key: Seq<char>) -> bool {
        self.root.slot(encode_utf8(key)) is Some
    }

    proof fn lemma_view(&self, key: Seq<char>)
        ensures
            self@.contains_key(key) == (self.root.lookup(encode_utf8(key)) is Some),
            self.root.lookup(encode_utf8(key)) is Some ==> self@[key] == self.root.lookup(
                encode_utf8(key),
            )->Some_0,
    {
    }

    /// A key that holds a value has a node.
    pub proof fn lemma_value_has_node(&self, key: Seq<char>)
        requires
            self.wf(),
        ensures
            self@.contains_key(key) ==> self.has_node(key),
    {
        self.lemma_view(key);
    }

    /// The keys (as bytes) of the hollow nodes below the root: nodes that hold no value.
    pub closed spec fn hollow_keys(&self) -> Set<Seq<u8>> {
        Set::new(|b: Seq<u8>| b.len() > 0 && self.root.slot(b) == Some(None::<V>))
    }

    /// The number of children of the node for `key` (0 where no node stands for it).
    pub closed spec fn child_count(&self, key: Seq<char>) -> nat {
        self.root.branches(encode_utf8(key))
    }

    /// The number of hollow nodes below the root.
    pub closed spec fn hollow_count(&self) -> nat {
        self.hollow_keys().len()
    }

    /// The node count is the root, one node for each stored non-empty key, and the
    /// hollow nodes.
    pub proof fn lemma_node_count(&self)
        requires
            self.wf(),
        ensures
            self@.dom().finite(),
            self.hollow_keys().finite(),
            self.node_count() == 1 + self@.dom().remove(Seq::<char>::empty()).len()
                + self.hollow_count(),
    {
        let root = self.root;
        root.lemma_count_keys();
        let k = root.keys();
        let v = Set::new(|b: Seq<u8>| b.len() > 0 && root.lookup(b) is Some);
        let h = self.hollow_keys();
        let e = Seq::<u8>::empty();
        assert(root.slot(e) == Some(root.value));
        assert forall|b: Seq<u8>| #[trigger] k.contains(b) == (v + h).insert(e).contains(b) by {
            if b.len() > 0 {
                match root.slot(b) {
                    Some(Some(x)) => {
                        assert(v.contains(b));
                    },
                    Some(None) => {
                        assert(h.contains(b));
                    },
                    None => {
                        assert(!v.contains(b));
                    },
                }
            } else {
                assert(b =~= e);
            }
        }
        assert(k =~= (v + h).insert(e));
        vstd::set_lib::lemma_len_subset(v, k);
        vstd::set_lib::lemma_len_subset(h, k);
        assert(v.disjoint(h));
        vstd::set_lib::lemma_set_disjoint_lens(v, h);
        assert(!(v + h).contains(e));
        let d = self@.dom().remove(Seq::<char>::empty());
        let dec = |b: Seq<u8>| decode_utf8(b);
        assert(encode_utf8(Seq::<char>::empty()) =~= Seq::<u8>::empty());
        assert forall|b1: Seq<u8>, b2: Seq<u8>|
            v.contains(b1) && v.contains(b2) && #[trigger] dec(b1) == #[trigger] dec(b2) implies b1
            == b2 by {
            decode_utf8_encode_utf8(b1);
            decode_utf8_encode_utf8(b2);
        }
        assert forall|s: Seq<char>| #[trigger] d.contains(s) == v.map(dec).contains(s) by {
            self.lemma_view(s);
            if d.contains(s) {
                encode_utf8_decode_utf8(s);
                lemma_encode_injective(s, Seq::<char>::empty());
                assert(v.contains(encode_utf8(s)) && s == dec(encode_utf8(s)));
            }
            if v.map(dec).contains(s) {
                let b = choose|b: Seq<u8>| v.contains(b) && s == dec(b);
                decode_utf8_encode_utf8(b);
                assert(encode_utf8(s) == b);
                if s == Seq::<char>::empty() {
                    assert(b == Seq::<u8>::empty());
                }
            }
        }
        assert(d =~= v.map(dec));
        vstd::set_lib::lemma_map_size(v, d, dec);
        assert(self@.dom() =~= d.insert(Seq::<char>::empty()) || self@.dom() =~= d);
        if self@.dom().contains(Seq::<char>::empty()) {
            assert(self@.dom() =~= d.insert(Seq::<char>::empty()));
        } else {
            assert(self@.dom() =~= d);
        }
    }

    /// A node with two children or more has two stored keys below it whose encodings
    /// extend that of `key`, neither starting the other.
    pub proof fn lemma_child_count_keys(&self, key: Seq<char>)
        requires
            self.wf(),
            self.child_count(key) >= 2,
        ensures
            exists|s1: Seq<char>, s2: Seq<char>|
                #![trigger self@.contains_key(s1), self@.contains_key(s2)]
                self@.contains_key(s1) && self@.contains_key(s2) && s1 != key && s2 != key
                    && is_prefix(encode_utf8(key), encode_utf8(s1)) && is_prefix(
                    encode_utf8(key),
                    encode_utf8(s2),
                ) && !is_prefix(encode_utf8(s1), encode_utf8(s2)) && !is_prefix(
                    encode_utf8(s2),
                    encode_utf8(s1),
                ),
    {
        let kb = encode_utf8(key);
        self.root.lemma_branches_keys(kb);
        let (a, b) = choose|k1: Seq<u8>, k2: Seq<u8>|
            #![trigger self.root.lookup(k1), self.root.lookup(k2)]
            self.root.lookup(k1) is Some && self.root.lookup(k2) is Some && is_prefix(kb, k1)
                && is_prefix(kb, k2) && k1 != kb && k2 != kb && !is_prefix(k1, k2) && !is_prefix(
                k2,
                k1,
            );
        decode_utf8_encode_utf8(a);
        decode_utf8_encode_utf8(b);
        let s1 = decode_utf8(a);
        let s2 = decode_utf8(b);
        self.lemma_view(s1);
        self.lemma_view(s2);
        assert(self@.contains_key(s1) && self@.contains_key(s2));
    }

    /// Constructs an empty prefix tree.
    pub fn new() -> (r: Self)
        ensures
            r.wf(),
            r@ == Map::<Seq<char>, V>::empty(),
            r.node_count() == 1,
            r.hollow_count() == 0,
    {
        let r = Trie { root: TrieNode { prefix: Vec::new(), children: Vec::new(), value: None } };
        proof {
            assert forall|k: Seq<char>| !r@.contains_key(k) by {
                r.lemma_view(k);
            }
            assert(r@ =~= Map::<Seq<char>, V>::empty());
            assert forall|k: Seq<u8>| #[trigger] r.root.slot(k) is Some implies valid_utf8(k) by {
                if k != r.root.prefix@ {
                    assert(k.subrange(0, 0) =~= Seq::<u8>::empty());
                }
            }
            assert(TrieNode::<V>::count_in(r.root.children@) == 0);
            assert(r.hollow_keys() =~= Set::<Seq<u8>>::empty());
        }
        r
    }

    /// The value stored under `key`, if any.
    pub fn get(&self, key: &str) -> (r: Option<&V>)
        requires
            self.wf(),
        ensures
            match r {
                Some(v) => self@.contains_key(key@) && self@[key@] == *v,
                None => !self@.contains_key(key@),
            },
    {
        let k = key.as_bytes();
        proof {
            assert(k@.skip(0) =~= k@);
            assert(k@.subrange(0, 0) =~= Seq::<u8>::empty());
            self.lemma_view(key@);
        }
        self.root.get(k, 0)
    }

    /// Whether `key` holds a value.
    pub fn has(&self, key: &str) -> (r: bool)
        requires
            self.wf(),
        ensures
            r == self@.contains_key(key@),
    {
        self.get(key).is_some()
    }

    /// The value stored under `key`, if any, as a mutable reference; whatever is written
    /// through it becomes the value of `key`.
    pub fn get_mut(&mut self, key: &str) -> (r: Option<&mut V>)
        requires
            old(self).wf(),
        ensures
            r is Some == old(self)@.contains_key(key@),
            r is None ==> *final(self) == *old(self),
            r is Some ==> {
                &&& *r.unwrap() == old(self)@[key@]
                &&& final(self).wf()
                &&& final(self)@ == old(self)@.insert(key@, *final(r.unwrap()))
                &&& final(self).node_count() == old(self).node_count()
            },
    {
        // look first, so that a missing key never borrows the tree mutably
        if !self.has(key) {
            return None;
        }
        let k = key.as_bytes();
        proof {
            assert(k@.skip(0) =~= k@);
            assert(k@.subrange(0, 0) =~= Seq::<u8>::empty());
            self.lemma_view(key@);
            assert forall|t: Trie<V>, x: Seq<char>| #[trigger] t@.contains_key(x) == (t.root.lookup(
                encode_utf8(x),
            ) is Some) by {
                t.lemma_view(x);
            }
            assert forall|x: Seq<char>| #[trigger] encode_utf8(x) == encode_utf8(key@) <==> x == key@ by {
                lemma_encode_injective(x, key@);
            }
        }
        let r = self.root.get_mut(k, 0);
        Some(r)
    }

    /// Stores `val` under `key`, overwriting any value there, and returns the value that
    /// was stored there before. It never fails.
    pub fn set(&mut self, key: &str, val: V) -> (r: Option<V>)
        requires
            old(self).wf(),
            old(self).node_count() < usize::MAX,
        ensures
            final(self).wf(),
            final(self)@ == old(self)@.insert(key@, val),
            r == if old(self)@.contains_key(key@) {
                Some(old(self)@[key@])
            } else {
                None
            },
            old(self).has_node(key@) ==> final(self).node_count() == old(self).node_count(),
            old(self).node_count() <= final(self).node_count() <= old(self).node_count() + 1,            final(self).hollow_count() <= old(self).hollow_count(),
            old(self).hollow_count() == 0 ==> final(self).hollow_count() == 0,
            final(self)@.dom().finite(),
            final(self).node_count() == 1 + final(self)@.dom().remove(Seq::<char>::empty()).len()
                + final(self).hollow_count(),
    {
        let k = key.as_bytes();
        proof {
            assert(k@.skip(0) =~= k@);
            assert(k@.subrange(0, 0) =~= Seq::<u8>::empty());
        }
        let ghost t0 = *self;
        let r = self.root.insert(k, 0, val);
        proof {
            t0.lemma_view(key@);
            assert forall|x: Seq<char>| #[trigger] self@.contains_key(x) == t0@.insert(key@, val).contains_key(x) by {
                lemma_encode_injective(x, key@);
                self.lemma_view(x);
                t0.lemma_view(x);
            }
            assert forall|x: Seq<char>| #[trigger] self@.contains_key(x) implies self@[x] == t0@.insert(key@, val)[x] by {
                lemma_encode_injective(x, key@);
                self.lemma_view(x);
                t0.lemma_view(x);
            }
            assert(self@ =~= t0@.insert(key@, val));
            broadcast use encode_utf8_valid_utf8;

            t0.lemma_node_count();
            assert forall|b: Seq<u8>| #[trigger] self.hollow_keys().contains(b) implies t0.hollow_keys().contains(b) by {
                assert(self.root.slot(b) is Some);
                assert(self.root.lookup(b) is None);
            }
            vstd::set_lib::lemma_len_subset(self.hollow_keys(), t0.hollow_keys());
            if t0.hollow_count() == 0 {
                assert(t0.hollow_keys() =~= Set::<Seq<u8>>::empty()) by {
                    if exists|b: Seq<u8>| t0.hollow_keys().contains(b) {
                        let b = choose|b: Seq<u8>| t0.hollow_keys().contains(b);
                        vstd::set_lib::lemma_set_empty_equivalency_len(t0.hollow_keys());
                    }
                }
                assert(self.hollow_keys() =~= Set::<Seq<u8>>::empty());
            }
            self.lemma_node_count();
        }
        r
    }

    /// Removes `key` and returns its value; fails with `KeyNotFoundError`, leaving the
    /// tree as it was, where `key` holds no value (no node stands for it, or a hollow one).
    pub fn remove(&mut self, key: &str) -> (r: Result<V, KeyNotFoundError>)
        requires
            old(self).wf(),
        ensures
            final(self).wf(),
            r is Ok == old(self)@.contains_key(key@),
            r is Err ==> *final(self) == *old(self),
            r is Ok ==> r->Ok_0 == old(self)@[key@] && final(self)@ == old(self)@.remove(key@),
            final(self).node_count() <= old(self).node_count(),
            old(self).node_count() <= final(self).node_count() + 2,
            final(self).hollow_count() <= old(self).hollow_count() + 1,
            old(self).child_count(key@) <= 1 ==> final(self).hollow_count() <= old(self).hollow_count(),
            old(self).hollow_count() == 0 && old(self).child_count(key@) <= 1
                ==> final(self).hollow_count() == 0,
            final(self)@.dom().finite(),
            final(self).node_count() == 1 + final(self)@.dom().remove(Seq::<char>::empty()).len()
                + final(self).hollow_count(),
    {
        // look first, so that a missing or hollow key leaves the tree untouched
        if !self.has(key) {
            proof {
                self.lemma_node_count();
            }
            return Err(KeyNotFoundError);
        }
        let k = key.as_bytes();
        let ghost t0 = *self;
        proof {
            assert(k@.skip(0) =~= k@);
            assert(k@.subrange(0, 0) =~= Seq::<u8>::empty());
            t0.lemma_view(key@);
        }
        let v;
        if k.len() == 0 {
            proof {
                assert(k@ =~= self.root.prefix@);
                assert(key@.len() == 0) by {
                    broadcast use encode_utf8_decode_utf8;

                    assert(key@ == vstd::utf8::decode_utf8(k@));
                }
            }
            v = self.root.value.take().unwrap();
            proof {
                assert forall|x: Seq<u8>| #[trigger] self.root.slot(x) == if x == k@ {
                    Some(None)
                } else {
                    t0.root.slot(x)
                } by {}
            }
        } else {
            v = self.root.remove_internal(k, 0).unwrap();
        }
        proof {
            assert forall|x: Seq<char>| #[trigger] self@.contains_key(x) == t0@.remove(key@).contains_key(x) by {
                lemma_encode_injective(x, key@);
                self.lemma_view(x);
                t0.lemma_view(x);
            }
            assert forall|x: Seq<char>| #[trigger] self@.contains_key(x) implies self@[x] == t0@.remove(key@)[x] by {
                lemma_encode_injective(x, key@);
                self.lemma_view(x);
                t0.lemma_view(x);
            }
            assert(self@ =~= t0@.remove(key@));
            t0.lemma_node_count();
            let kb = encode_utf8(key@);
            assert forall|b: Seq<u8>| #[trigger] self.hollow_keys().contains(b) implies t0.hollow_keys().insert(
                kb,
            ).contains(b) && (b == kb ==> t0.child_count(key@) >= 2) by {
                if b != kb {
                    assert(self.root.lookup(b) == t0.root.lookup(b));
                }
            }
            vstd::set_lib::lemma_len_subset(self.hollow_keys(), t0.hollow_keys().insert(kb));
            if t0.child_count(key@) <= 1 {
                vstd::set_lib::lemma_len_subset(self.hollow_keys(), t0.hollow_keys());
                vstd::set_lib::lemma_set_empty_equivalency_len(t0.hollow_keys());
                vstd::set_lib::lemma_set_empty_equivalency_len(self.hollow_keys());
            }
            self.lemma_node_count();
        }
        Ok(v)
    }

    /// The number of nodes in the tree, the root and hollow nodes included.
    pub fn size(&self) -> (r: usize)
        requires
            self.wf(),
        ensures
            r == self.node_count(),
    {
        self.root.size()
    }
}

/// After `set(key, v)`, `get(key)` finds `v`.
pub proof fn lemma_set_then_get<V>(before: Trie<V>, after: Trie<V>, key: Seq<char>, v: V)
    requires
        before.wf(),
        after@ == before@.insert(key, v),
    ensures
        after@.contains_key(key),
        after@[key] == v,
{
}

/// Setting a key twice: the second `set` hands back the first value, `get` then finds
/// the second, and the second `set` adds no node.
pub proof fn lemma_overwrite<V>(
    t0: Trie<V>,
    t1: Trie<V>,
    t2: Trie<V>,
    key: Seq<char>,
    v1: V,
    v2: V,
    r2: Option<V>,
)
    requires
        t0.wf(),
        t1.wf(),
        t1@ == t0@.insert(key, v1),
        t2@ == t1@.insert(key, v2),
        r2 == if t1@.contains_key(key) {
            Some(t1@[key])
        } else {
            None
        },
        t1.has_node(key) ==> t2.node_count() == t1.node_count(),
    ensures
        r2 == Some(v1),
        t2@.contains_key(key),
        t2@[key] == v2,
        t2.node_count() == t1.node_count(),
{
    t1.lemma_value_has_node(key);
}

/// A `remove` that failed left the tree as it was, so the key is still absent: the same
/// `remove` fails again, and again changes neither the node count nor any value.
pub proof fn lemma_failed_remove_repeats<V>(
    t0: Trie<V>,
    t1: Trie<V>,
    t2: Trie<V>,
    key: Seq<char>,
    r1: Result<V, KeyNotFoundError>,
    r2: Result<V, KeyNotFoundError>,
)
    requires
        t0.wf(),
        r1 is Ok == t0@.contains_key(key),
        r1 is Err ==> t1 == t0,
        r2 is Ok == t1@.contains_key(key),
        r2 is Err ==> t2 == t1,
        r1 is Err,
    ensures
        r2 is Err,
        t2 == t0,
        t2@ == t0@,
        t2.node_count() == t0.node_count(),
{
}

/// Storing under one key leaves every other key's value as it was.
pub proof fn lemma_set_isolated<V>(before: Trie<V>, after: Trie<V>, key: Seq<char>, v: V, other: Seq<char>)
    requires
        after@ == before@.insert(key, v),
        other != key,
    ensures
        after@.contains_key(other) == before@.contains_key(other),
        before@.contains_key(other) ==> after@[other] == before@[other],
{
}

/// Removing one key leaves every other key's value as it was.
pub proof fn lemma_remove_isolated<V>(before: Trie<V>, after: Trie<V>, key: Seq<char>, other: Seq<char>)
    requires
        after@ == before@.remove(key),
        other != key,
    ensures
        after@.contains_key(other) == before@.contains_key(other),
        before@.contains_key(other) ==> after@[other] == before@[other],
{
}

} // verus!
