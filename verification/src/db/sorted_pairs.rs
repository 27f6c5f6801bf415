//! The deleted-file set of a version edit, read back in increasing order.
use std::collections::BTreeSet;
use vstd::prelude::*;
use vstd::std_specs::btree::{increasing_seq, spec_btree_keys_iter};
use vstd::std_specs::cmp::OrdSpec;
use vstd::std_specs::iter::IteratorSpec;

verus! {

/// Lexicographic order on (level, file number) pairs.
pub open spec fn pair_lt(a: (i32, u64), b: (i32, u64)) -> bool {
    a.0 < b.0 || (a.0 == b.0 && a.1 < b.1)
}

/// Every element of `s` sorts strictly before the ones after it.
pub open spec fn pairs_increasing(s: Seq<(i32, u64)>) -> bool {
    forall|i: int, j: int| 0 <= i < j < s.len() ==> pair_lt(s[i], s[j])
}

/// The elements of `set` in increasing order.
pub open spec fn sorted_pairs(set: Set<(i32, u64)>) -> Seq<(i32, u64)> {
    choose|s: Seq<(i32, u64)>| pairs_increasing(s) && s.to_set() == set
}

/// Two increasing sequences with the same elements are the same sequence.
pub proof fn lemma_increasing_unique(a: Seq<(i32, u64)>, b: Seq<(i32, u64)>)
    requires
        pairs_increasing(a),
        pairs_increasing(b),
        a.to_set() == b.to_set(),
    ensures
        a == b,
    decreases a.len(),
{
    if a.len() == 0 {
        if b.len() > 0 {
            assert(b.to_set().contains(b[0]));
            assert(a.contains(b[0]));
        }
        assert(a =~= b);
    } else {
        assert(a.to_set().contains(a[0]));
        assert(b.contains(a[0]));
        let k = choose|k: int| 0 <= k < b.len() && b[k] == a[0];
        assert(b.to_set().contains(b[0]));
        assert(a.contains(b[0]));
        let m = choose|m: int| 0 <= m < a.len() && a[m] == b[0];
        if a[0] != b[0] {
            assert(m > 0 && k > 0);
            assert(pair_lt(a[0], a[m]));
            assert(pair_lt(b[0], b[k]));
        }
        let (ad, bd) = (a.drop_first(), b.drop_first());
        assert(ad.to_set() =~= bd.to_set()) by {
            assert forall|x: (i32, u64)| ad.to_set().contains(x) implies bd.to_set().contains(x) by {
                let i = choose|i: int| 0 <= i < ad.len() && ad[i] == x;
                assert(a[i + 1] == x);
                assert(pair_lt(a[0], x));
                assert(a.to_set().contains(x));
                let j = choose|j: int| 0 <= j < b.len() && b[j] == x;
                assert(j != 0);
                assert(bd[j - 1] == x);
            }
            assert forall|x: (i32, u64)| bd.to_set().contains(x) implies ad.to_set().contains(x) by {
                let i = choose|i: int| 0 <= i < bd.len() && bd[i] == x;
                assert(b[i + 1] == x);
                assert(pair_lt(b[0], x));
                assert(b.to_set().contains(x));
                let j = choose|j: int| 0 <= j < a.len() && a[j] == x;
                assert(j != 0);
                assert(ad[j - 1] == x);
            }
        }
        lemma_increasing_unique(ad, bd);
        assert(a =~= b) by {
            assert forall|i: int| 0 <= i < a.len() implies a[i] == b[i] by {
                if i > 0 {
                    assert(a[i] == ad[i - 1]);
                    assert(b[i] == bd[i - 1]);
                }
            }
        }
    }
}

/// An increasing sequence is the sorted sequence of its elements.
pub proof fn lemma_sorted_pairs_is(s: Seq<(i32, u64)>)
    requires
        pairs_increasing(s),
    ensures
        sorted_pairs(s.to_set()) == s,
{
    let t = sorted_pairs(s.to_set());
    assert(pairs_increasing(t) && t.to_set() == s.to_set());
    lemma_increasing_unique(s, t);
}

/// The elements of a set of pairs, in increasing order, as the set's iterator yields them.
pub fn btree_pairs_in_order(s: &BTreeSet<(i32, u64)>) -> (r: Vec<(i32, u64)>)
    ensures
        r@ == sorted_pairs(s@),
        r@.to_set() == s@,
{
    broadcast use vstd::laws_cmp::group_laws_cmp, vstd::std_specs::btree::group_btree_axioms;

    let mut v: Vec<(i32, u64)> = Vec::new();
    assert(vstd::laws_cmp::obeys_cmp::<(i32, u64)>());
    assert(vstd::laws_cmp::obeys_cmp::<&(i32, u64)>());
    for f in it: s.iter()
        invariant
            v@ == it.seq().take(it.index()).map_values(|x: &(i32, u64)| *x),
    {
        v.push(*f);
    }
    let ghost rem = spec_btree_keys_iter(s).remaining();
    assert(v@ =~= rem.unref());
    assert(increasing_seq(rem));
    proof {
        vstd::std_specs::btree::axiom_increasing_seq_meaning(rem);
    }
    assert forall|i: int, j: int| 0 <= i < j < v@.len() implies pair_lt(v@[i], v@[j]) by {
        assert(OrdSpec::cmp_spec(&rem[i], &rem[j]) is Less);
    }
    proof {
        lemma_sorted_pairs_is(v@);
    }
    v
}

/// Some increasing sequence lists exactly the elements of a set of pairs.
pub proof fn lemma_btree_pairs_enumerable(s: &BTreeSet<(i32, u64)>)
    ensures
        exists|r: Seq<(i32, u64)>| pairs_increasing(r) && r.to_set() == s@,
{
    broadcast use vstd::laws_cmp::group_laws_cmp, vstd::std_specs::btree::group_btree_axioms;

    assert(vstd::laws_cmp::obeys_cmp::<(i32, u64)>());
    assert(vstd::laws_cmp::obeys_cmp::<&(i32, u64)>());
    let rem = spec_btree_keys_iter(s).remaining();
    let r = rem.unref();
    assert(increasing_seq(rem));
    vstd::std_specs::btree::axiom_increasing_seq_meaning(rem);
    assert forall|i: int, j: int| 0 <= i < j < r.len() implies pair_lt(r[i], r[j]) by {
        assert(OrdSpec::cmp_spec(&rem[i], &rem[j]) is Less);
    }
    assert(pairs_increasing(r) && r.to_set() == s@);
}

} // verus!
