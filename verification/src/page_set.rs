//! Collecting the selected pages in an ordered set, then reading them back
//! in increasing order.
use vstd::prelude::*;
use std::collections::BTreeSet;
use vstd::std_specs::cmp::OrdSpec;
use vstd::std_specs::iter::IteratorSpec;
use crate::pages::{covers, is_page_list, range_covers, strictly_increasing};

verus! {

broadcast use {vstd::laws_cmp::group_laws_cmp, vstd::std_specs::btree::group_btree_axioms};

/// Whether `q` is selected by the first `j` ranges.
spec fn covered_by_first(rs: Seq<(u32, u32)>, j: int, max: u32, q: int) -> bool {
    covers(rs.take(j), max, q)
}

/// A sequence of keys that the ordered set hands out in increasing order
/// holds strictly increasing numbers.
proof fn lemma_increasing_keys(keys: Seq<&u32>)
    requires
        vstd::std_specs::btree::increasing_seq(keys),
    ensures
        strictly_increasing(keys.unref()),
{
    assert(vstd::laws_cmp::obeys_cmp::<u32>());
    assert(vstd::laws_cmp::obeys_cmp::<&u32>());
    vstd::std_specs::btree::axiom_increasing_seq_meaning(keys);
    assert forall|i: int, j: int| 0 <= i < j < keys.len() implies keys.unref()[i] < keys.unref()[j] by {
        assert(OrdSpec::cmp_spec(&keys[i], &keys[j]) is Less);
    }
}

/// The 0-based indices of the pages selected by `ranges` among the first
/// `max` pages, in increasing order.
pub fn selected_pages(ranges: &Vec<(u32, u32)>, max: u32) -> (v: Vec<u32>)
    ensures
        is_page_list(v@, ranges@, max),
{
    let mut set: BTreeSet<u32> = BTreeSet::new();
    let k = ranges.len();
    let mut j: usize = 0;
    while j < k
        invariant
            j <= k,
            k == ranges.len(),
            forall|x: u32| set@.contains(x) <==> covered_by_first(ranges@, j as int, max, x as int),
            forall|q: int| covered_by_first(ranges@, j as int, max, q) ==> 0 <= q < max,
        decreases k - j,
    {
        let (a, b) = ranges[j];
        let first: u32 = if a == 0 { 1 } else { a };
        let last: u32 = if b < max { b } else { max };
        let mut p: u64 = first as u64;
        while p <= last as u64
            invariant
                1 <= first,
                first <= p,
                first <= last ==> p <= last + 1,
                first > last ==> p == first,
                forall|x: u32|
                    set@.contains(x) <==> (covered_by_first(ranges@, j as int, max, x as int) || (
                    first <= x + 1 && x + 1 < p)),
            decreases last + 1 - p,
        {
            set.insert((p - 1) as u32);
            p = p + 1;
        }
        proof {
            let rs = ranges@;
            assert forall|q: int| #![trigger covered_by_first(rs, j + 1, max, q)]
                covered_by_first(rs, j + 1, max, q) <==> (covered_by_first(rs, j as int, max, q)
                    || range_covers(rs[j as int], max, q)) by {
                let t = rs.take(j + 1);
                if covered_by_first(rs, j + 1, max, q) {
                    let i = choose|i: int| 0 <= i < t.len() && range_covers(t[i], max, q);
                    if i < j {
                        assert(rs.take(j as int)[i] == t[i]);
                    }
                }
                if covered_by_first(rs, j as int, max, q) {
                    let i = choose|i: int|
                        0 <= i < rs.take(j as int).len() && range_covers(rs.take(j as int)[i], max, q);
                    assert(t[i] == rs.take(j as int)[i]);
                }
                if range_covers(rs[j as int], max, q) {
                    assert(t[j as int] == rs[j as int]);
                }
            }
        }
        j = j + 1;
    }
    assert(ranges@.take(k as int) =~= ranges@);
    let ghost keys = vstd::std_specs::btree::spec_btree_keys_iter(&set).remaining();
    proof {
        vstd::std_specs::btree::axiom_spec_btree_keys_iter(&set);
    }
    let mut v: Vec<u32> = Vec::new();
    for x in it: set.iter()
        invariant
            it.seq() == keys,
            v@ == keys.unref().take(it.index()),
    {
        v.push(*x);
        assert(v@ =~= keys.unref().take(it.index() + 1));
    }
    assert(v@ =~= keys.unref());
    proof {
        let rs = ranges@;
        assert(keys.unref().to_set() == set@);
        lemma_increasing_keys(keys);
        assert forall|i: int| 0 <= i < v@.len() implies covers(rs, max, #[trigger] v@[i] as int) by {
            assert(keys.unref().contains(v@[i]));
            assert(set@.contains(v@[i]));
            assert(covered_by_first(rs, k as int, max, v@[i] as int));
        }
        assert forall|q: int| #[trigger] covers(rs, max, q) implies v@.contains(q as u32) by {
            assert(covered_by_first(rs, k as int, max, q));
            let x = q as u32;
            assert(set@.contains(x));
            assert(keys.unref().to_set().contains(x));
        }
    }
    v
}

} // verus!
