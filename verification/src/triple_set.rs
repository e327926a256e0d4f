//! An ordered set of triples, held in std's `BTreeSet`.
//!
//! The set keeps each triple once and hands its members back in increasing
//! lexicographic order, the order of `lex_lt`.
use crate::triples::{lex_lt, strictly_sorted};
use vstd::prelude::*;
use vstd::laws_cmp::obeys_cmp;
use vstd::std_specs::btree::increasing_seq;
use vstd::std_specs::cmp::OrdSpec;
use vstd::std_specs::iter::IteratorSpec;

verus! {

broadcast use {vstd::std_specs::btree::group_btree_axioms, vstd::laws_cmp::group_laws_cmp};

/// The order that std's `Ord` gives a triple of `i64` is `lex_lt`.
proof fn lemma_tuple_order_is_lex(x: (i64, i64, i64), y: (i64, i64, i64))
    ensures
        (x.cmp_spec(&y) is Less) <==> lex_lt(x, y),
{
}

/// In a sequence that `increasing_seq` holds of, each member is below every later one.
proof fn lemma_increasing_pair<K: Ord>(s: Seq<K>, i: int, j: int)
    requires
        obeys_cmp::<K>(),
        increasing_seq(s),
        0 <= i < j < s.len(),
    ensures
        s[i].cmp_spec(&s[j]) is Less,
{
}

/// An empty set of triples.
pub(crate) fn empty_triple_set() -> (s: std::collections::BTreeSet<(i64, i64, i64)>)
    ensures
        s@ == Set::<(i64, i64, i64)>::empty(),
{
    std::collections::BTreeSet::new()
}

/// Add `t` to the set; a triple already there stays once.
pub(crate) fn insert_triple(s: &mut std::collections::BTreeSet<(i64, i64, i64)>, t: (i64, i64, i64))
    ensures
        final(s)@ == old(s)@.insert(t),
{
    s.insert(t);
}

/// The members of the set, in increasing lexicographic order.
pub(crate) fn sorted_triples(s: &std::collections::BTreeSet<(i64, i64, i64)>) -> (v: Vec<(i64, i64, i64)>)
    ensures
        strictly_sorted(v@),
        forall|t: (i64, i64, i64)| v@.contains(t) <==> s@.contains(t),
{
    let mut v: Vec<(i64, i64, i64)> = Vec::new();
    let ghost keys = s.iter().remaining();
    for t in it: s.iter()
        invariant
            it.seq() == keys,
            v.len() == it.index(),
            forall|i: int| 0 <= i < v.len() ==> v@[i] == *#[trigger] keys[i],
    {
        v.push(*t);
    }
    proof {
        assert(obeys_cmp::<i64>());
        assert(obeys_cmp::<(i64, i64, i64)>());
        assert(obeys_cmp::<&(i64, i64, i64)>());
        assert(increasing_seq(keys));
        assert(keys.len() == v.len());
        assert forall|i: int, j: int| 0 <= i < j < v@.len() implies lex_lt(#[trigger] v@[i], #[trigger] v@[j]) by {
            lemma_increasing_pair(keys, i, j);
            lemma_tuple_order_is_lex(*keys[i], *keys[j]);
        }
        assert(keys.unref().to_set() == s@);
        assert forall|t: (i64, i64, i64)| v@.contains(t) <==> s@.contains(t) by {
            if v@.contains(t) {
                let i = choose|i: int| 0 <= i < v@.len() && v@[i] == t;
                assert(keys.unref()[i] == t);
                assert(keys.unref().contains(t));
            }
            if s@.contains(t) {
                assert(keys.unref().contains(t));
                let i = choose|i: int| 0 <= i < keys.unref().len() && keys.unref()[i] == t;
                assert(v@[i] == t);
            }
        }
    }
    v
}

} // verus!
