//! Keys as byte sequences (their UTF-8 encoding): when one starts another, and the
//! loops that read them.
use vstd::prelude::*;

verus! {

/// Whether `p` is an initial segment of `s`.
pub open spec fn is_prefix(p: Seq<u8>, s: Seq<u8>) -> bool {
    p.len() <= s.len() && s.subrange(0, p.len() as int) == p
}

/// Two initial segments of one sequence are ordered: the shorter starts the longer.
pub(crate) proof fn lemma_prefixes_ordered(a: Seq<u8>, b: Seq<u8>, s: Seq<u8>)
    requires
        is_prefix(a, s),
        is_prefix(b, s),
        a.len() <= b.len(),
    ensures
        is_prefix(a, b),
{
    assert(b.subrange(0, a.len() as int) =~= s.subrange(0, a.len() as int));
}

pub(crate) proof fn lemma_prefix_refl(s: Seq<u8>)
    ensures
        is_prefix(s, s),
{
    assert(s.subrange(0, s.len() as int) =~= s);
}

pub(crate) proof fn lemma_prefix_trans(a: Seq<u8>, b: Seq<u8>, c: Seq<u8>)
    requires
        is_prefix(a, b),
        is_prefix(b, c),
    ensures
        is_prefix(a, c),
{
    assert(c.subrange(0, a.len() as int) =~= b.subrange(0, a.len() as int));
}

/// Splitting `s` after an initial segment `p`, and gluing the pieces back.
pub(crate) proof fn lemma_prefix_skip(p: Seq<u8>, s: Seq<u8>)
    requires
        is_prefix(p, s),
    ensures
        p + s.skip(p.len() as int) == s,
{
    assert(p + s.skip(p.len() as int) =~= s);
}

/// `p` starts `p + t`, and what follows it is `t`.
pub(crate) proof fn lemma_concat_prefix(p: Seq<u8>, t: Seq<u8>)
    ensures
        is_prefix(p, p + t),
        (p + t).skip(p.len() as int) == t,
{
    assert((p + t).subrange(0, p.len() as int) =~= p);
    assert((p + t).skip(p.len() as int) =~= t);
}

/// Prepending one segment keeps the prefix relation, both ways.
pub(crate) proof fn lemma_prefix_prepend(p: Seq<u8>, a: Seq<u8>, b: Seq<u8>)
    ensures
        is_prefix(p + a, p + b) == is_prefix(a, b),
{
    if is_prefix(a, b) {
        assert((p + b).subrange(0, (p + a).len() as int) =~= p + a);
    }
    if is_prefix(p + a, p + b) {
        assert(b.subrange(0, a.len() as int) =~= (p + b).subrange(0, (p + a).len() as int).skip(
            p.len() as int,
        ));
        assert((p + a).skip(p.len() as int) =~= a);
    }
}

/// Whether `p` starts what follows position `at` of `key`.
pub(crate) fn starts_with_at(key: &[u8], at: usize, p: &[u8]) -> (r: bool)
    requires
        at <= key@.len(),
    ensures
        r == is_prefix(p@, key@.skip(at as int)),
{
    let klen = key.len();
    if p.len() > klen - at {
        return false;
    }
    let mut i: usize = 0;
    while i < p.len()
        invariant
            klen == key@.len(),
            at <= key@.len(),
            p@.len() <= key@.len() - at,
            0 <= i <= p@.len(),
            forall|j: int| 0 <= j < i ==> key@[at + j] == p@[j],
        decreases p@.len() - i,
    {
        if key[at + i] != p[i] {
            assert(key@.skip(at as int).subrange(0, p@.len() as int)[i as int] != p@[i as int]);
            return false;
        }
        i += 1;
    }
    assert(key@.skip(at as int).subrange(0, p@.len() as int) =~= p@);
    true
}

/// What follows position `at` of `key`.
pub(crate) fn suffix_of(key: &[u8], at: usize) -> (r: Vec<u8>)
    requires
        at <= key@.len(),
    ensures
        r@ == key@.skip(at as int),
{
    let mut r: Vec<u8> = Vec::new();
    let mut i: usize = at;
    while i < key.len()
        invariant
            at <= i <= key@.len(),
            r@ == key@.subrange(at as int, i as int),
        decreases key@.len() - i,
    {
        r.push(key[i]);
        i += 1;
    }
    assert(r@ =~= key@.skip(at as int));
    r
}

} // verus!
