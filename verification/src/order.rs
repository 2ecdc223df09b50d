//! Stable orderings by integer keys: positions sorted ascending by key, equal
//! keys kept in their relative order.

use vstd::prelude::*;

verus! {

/// Position `i` comes before position `j`: a smaller key, or an equal key
/// and an earlier position.
pub open spec fn key_before(keys: Seq<int>, i: int, j: int) -> bool {
    keys[i] < keys[j] || (keys[i] == keys[j] && i < j)
}

/// `p` lists the positions of `keys` in stable ascending key order.
pub open spec fn stable_order(keys: Seq<int>, p: Seq<int>) -> bool {
    &&& p.len() == keys.len()
    &&& forall|i: int| 0 <= i < p.len() ==> 0 <= #[trigger] p[i] < keys.len()
    &&& forall|i: int, j: int| 0 <= i < j < p.len() ==> key_before(keys, #[trigger] p[i], #[trigger] p[j])
}

/// The elements of `s` at the positions `p`.
pub open spec fn permuted<T>(s: Seq<T>, p: Seq<int>) -> Seq<T> {
    Seq::new(p.len(), |i: int| s[p[i]])
}

/// `out` is `s` sorted ascending by `keys` (one key per element), elements
/// with equal keys keeping their order.
pub open spec fn stably_sorted<T>(s: Seq<T>, keys: Seq<int>, out: Seq<T>) -> bool {
    exists|p: Seq<int>| stable_order(keys, p) && out == permuted(s, p)
}

/// Integer views of keys and positions.
pub open spec fn int_keys(k: Seq<i128>) -> Seq<int> {
    k.map_values(|x: i128| x as int)
}

pub open spec fn int_positions(p: Seq<usize>) -> Seq<int> {
    p.map_values(|x: usize| x as int)
}

/// Lexicographic order of pairs.
pub open spec fn pair_lt(a: (i128, usize), b: (i128, usize)) -> bool {
    a.0 < b.0 || (a.0 == b.0 && a.1 < b.1)
}

/// Sorts pairs ascending.
///
/// Trusted: calls std's `slice::sort_unstable`, which permutes the elements
/// into ascending order of their `Ord`; for tuples std defines that order
/// lexicographically. The elements are distinct, so the order is strict, and
/// every element of the result is one of the input.
#[verifier::external_body]
fn sort_pairs(v: &mut Vec<(i128, usize)>)
    requires
        forall|i: int, j: int| 0 <= i < j < old(v)@.len() ==> old(v)@[i] != old(v)@[j],
    ensures
        final(v)@.len() == old(v)@.len(),
        forall|i: int| 0 <= i < final(v)@.len() ==> old(v)@.contains(#[trigger] final(v)@[i]),
        forall|i: int, j: int|
            0 <= i < j < final(v)@.len() ==> pair_lt(#[trigger] final(v)@[i], #[trigger] final(v)@[j]),
{
    v.sort_unstable();
}

/// The positions of `keys` in stable ascending key order.
pub fn stable_order_of(keys: &Vec<i128>) -> (p: Vec<usize>)
    ensures
        stable_order(int_keys(keys@), int_positions(p@)),
{
    let n = keys.len();
    let mut pairs: Vec<(i128, usize)> = Vec::new();
    let mut i: usize = 0;
    while i < n
        invariant
            n == keys@.len(),
            i <= n,
            pairs@.len() == i,
            forall|j: int| 0 <= j < i ==> #[trigger] pairs@[j] == (keys@[j], j as usize),
        decreases n - i,
    {
        pairs.push((keys[i], i));
        i += 1;
    }
    let ghost before = pairs@;
    sort_pairs(&mut pairs);
    let mut p: Vec<usize> = Vec::new();
    let mut i: usize = 0;
    while i < pairs.len()
        invariant
            pairs@.len() == n,
            i <= n,
            p@.len() == i,
            forall|j: int| 0 <= j < i ==> #[trigger] p@[j] == pairs@[j].1,
        decreases n - i,
    {
        p.push(pairs[i].1);
        i += 1;
    }
    proof {
        let ks = int_keys(keys@);
        let ps = int_positions(p@);
        assert forall|i: int| 0 <= i < n implies pairs@[i] == (keys@[pairs@[i].1 as int], pairs@[i].1) && pairs@[i].1 < n by {
            assert(before.contains(pairs@[i]));
            let j = choose|j: int| 0 <= j < before.len() && before[j] == pairs@[i];
            assert(before[j] == (keys@[j], j as usize));
        }
        assert forall|i: int| 0 <= i < ps.len() implies 0 <= #[trigger] ps[i] < ks.len() by {
            assert(ps[i] == p@[i] as int);
        }
        assert forall|i: int, j: int| 0 <= i < j < ps.len() implies key_before(ks, #[trigger] ps[i], #[trigger] ps[j]) by {
            assert(pair_lt(pairs@[i], pairs@[j]));
            assert(ps[i] == pairs@[i].1 as int && ps[j] == pairs@[j].1 as int);
        }
    }
    p
}

/// Law: a stable sort loses nothing: every element of the input is in the
/// output.
pub proof fn lemma_sorted_keeps_all<T>(s: Seq<T>, keys: Seq<int>, out: Seq<T>)
    requires
        stably_sorted(s, keys, out),
        keys.len() == s.len(),
    ensures
        forall|k: int| 0 <= k < s.len() ==> out.contains(#[trigger] s[k]),
{
    let p = choose|p: Seq<int>| stable_order(keys, p) && out == permuted(s, p);
    assert(p.no_duplicates()) by {
        assert forall|i: int, j: int| 0 <= i < p.len() && 0 <= j < p.len() && i != j implies p[i] != p[j] by {
            if i < j {
                assert(key_before(keys, p[i], p[j]));
            } else {
                assert(key_before(keys, p[j], p[i]));
            }
        }
    }
    p.unique_seq_to_set();
    let range = vstd::set_lib::set_int_range(0, keys.len() as int);
    vstd::set_lib::lemma_int_range(0, keys.len() as int);
    assert(p.to_set().subset_of(range));
    vstd::set_lib::lemma_subset_equality(p.to_set(), range);
    assert forall|k: int| 0 <= k < s.len() implies out.contains(#[trigger] s[k]) by {
        assert(range.contains(k));
        assert(p.to_set().contains(k));
        let i = choose|i: int| 0 <= i < p.len() && p[i] == k;
        assert(out[i] == s[k]);
    }
}

} // verus!
