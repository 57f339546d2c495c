//! The order in which dictionary entries are taken: by weight, heaviest
//! first, and in text order among equal weights.
use vstd::prelude::*;

verus! {

/// `perm` is the order in which entries of the weight keys `keys` are
/// taken: each index once, heaviest first, in index order among equal keys.
pub open spec fn is_rank_order(keys: Seq<i64>, perm: Seq<usize>) -> bool {
    &&& perm.to_multiset() == index_range(0, keys.len() as int).to_multiset()
    &&& in_rank_order(keys, perm)
}

/// Entry `a` is taken before entry `b`: it weighs more, or weighs the same and
/// comes first.
pub open spec fn ranks_before(keys: Seq<i64>, a: int, b: int) -> bool {
    keys[a] > keys[b] || (keys[a] == keys[b] && a < b)
}

/// `s` lists entries in the order in which they are taken.
pub open spec fn in_rank_order(keys: Seq<i64>, s: Seq<usize>) -> bool {
    forall|i: int, j: int| 0 <= i < j < s.len() ==> ranks_before(keys, #[trigger] s[i] as int, #[trigger] s[j] as int)
}

/// The indices `lo`, `lo + 1`, ..., `hi - 1`.
pub open spec fn index_range(lo: int, hi: int) -> Seq<usize> {
    Seq::new((hi - lo) as nat, |i: int| (lo + i) as usize)
}

/// Without its first entry, a list in order stays in order.
proof fn lemma_rank_order_tail(keys: Seq<i64>, s: Seq<usize>)
    requires
        s.len() > 0,
        in_rank_order(keys, s),
    ensures
        in_rank_order(keys, s.drop_first()),
        s.drop_first().to_multiset() == s.to_multiset().remove(s[0]),
{
    let t = s.drop_first();
    assert forall|i: int, j: int| 0 <= i < j < t.len() implies ranks_before(keys, #[trigger] t[i] as int, #[trigger] t[j] as int) by {
        assert(t[i] == s[i + 1] && t[j] == s[j + 1]);
    }
    assert(s.remove(0) =~= t);
    vstd::seq_lib::to_multiset_remove(s, 0);
}

/// The order in which entries are taken is unique: two lists that hold the
/// same indices, each in that order, are the same list.
pub proof fn lemma_rank_order_unique(keys: Seq<i64>, s1: Seq<usize>, s2: Seq<usize>)
    requires
        s1.to_multiset() == s2.to_multiset(),
        in_rank_order(keys, s1),
        in_rank_order(keys, s2),
    ensures
        s1 == s2,
    decreases s1.len(),
{
    broadcast use vstd::seq_lib::group_to_multiset_ensures;

    assert(s1.len() == s1.to_multiset().len());
    assert(s2.len() == s2.to_multiset().len());
    if s1.len() == 0 {
        assert(s1 =~= s2);
    } else {
        assert(s2.len() == s1.len());
        let a = s1[0];
        let b = s2[0];
        if a != b {
            assert(s2.to_multiset().count(b) > 0);
            assert(s1.contains(b));
            let k = choose|k: int| 0 <= k < s1.len() && s1[k] == b;
            assert(ranks_before(keys, s1[0] as int, s1[k] as int));
            assert(s1.to_multiset().count(a) > 0);
            assert(s2.contains(a));
            let m = choose|m: int| 0 <= m < s2.len() && s2[m] == a;
            assert(ranks_before(keys, s2[0] as int, s2[m] as int));
            assert(false);
        }
        lemma_rank_order_tail(keys, s1);
        lemma_rank_order_tail(keys, s2);
        lemma_rank_order_unique(keys, s1.drop_first(), s2.drop_first());
        assert(s1 =~= s2) by {
            assert forall|i: int| 0 <= i < s1.len() implies s1[i] == s2[i] by {
                if i > 0 {
                    assert(s1[i] == s1.drop_first()[i - 1]);
                    assert(s2[i] == s2.drop_first()[i - 1]);
                }
            }
        }
    }
}

fn merge(keys: &[i64], a: Vec<usize>, b: Vec<usize>, mid: usize) -> (r: Vec<usize>)
    requires
        in_rank_order(keys@, a@),
        in_rank_order(keys@, b@),
        forall|i: int| 0 <= i < a@.len() ==> #[trigger] a@[i] < mid,
        forall|i: int| 0 <= i < b@.len() ==> mid <= #[trigger] b@[i] < keys@.len(),
        mid <= keys@.len(),
    ensures
        in_rank_order(keys@, r@),
        r@.to_multiset() == a@.to_multiset().add(b@.to_multiset()),
        forall|i: int| 0 <= i < r@.len() ==> #[trigger] r@[i] < keys@.len(),
{
    broadcast use vstd::seq_lib::group_seq_properties;

    let mut r: Vec<usize> = Vec::new();
    let mut i: usize = 0;
    let mut j: usize = 0;
    proof {
        assert(a@.take(0) =~= Seq::<usize>::empty());
        assert(b@.take(0) =~= Seq::<usize>::empty());
        assert(r@.to_multiset() =~= a@.take(0).to_multiset().add(b@.take(0).to_multiset()));
    }
    while i < a.len() || j < b.len()
        invariant
            in_rank_order(keys@, a@),
            in_rank_order(keys@, b@),
            forall|k: int| 0 <= k < a@.len() ==> #[trigger] a@[k] < mid,
            forall|k: int| 0 <= k < b@.len() ==> mid <= #[trigger] b@[k] < keys@.len(),
            mid <= keys@.len(),
            i <= a@.len(),
            j <= b@.len(),
            r@.len() == i + j,
            in_rank_order(keys@, r@),
            forall|k: int| 0 <= k < r@.len() ==> #[trigger] r@[k] < keys@.len(),
            r@.to_multiset() == a@.take(i as int).to_multiset().add(b@.take(j as int).to_multiset()),
            forall|k: int, m: int|
                0 <= k < r@.len() && i <= m < a@.len() ==> ranks_before(keys@, #[trigger] r@[k] as int, #[trigger] a@[m] as int),
            forall|k: int, m: int|
                0 <= k < r@.len() && j <= m < b@.len() ==> ranks_before(keys@, #[trigger] r@[k] as int, #[trigger] b@[m] as int),
        decreases a@.len() + b@.len() - i - j,
    {
        let take_a = if i < a.len() && j < b.len() {
            keys[a[i]] >= keys[b[j]]
        } else {
            i < a.len()
        };
        let x = if take_a {
            a[i]
        } else {
            b[j]
        };
        proof {
            if take_a {
                assert(a@.take(i + 1) =~= a@.take(i as int).push(x));
                assert forall|m: int| i < m < a@.len() implies ranks_before(keys@, x as int, #[trigger] a@[m] as int) by {
                    assert(ranks_before(keys@, a@[i as int] as int, a@[m] as int));
                }
                assert forall|m: int| j <= m < b@.len() implies ranks_before(keys@, x as int, #[trigger] b@[m] as int) by {
                    assert(ranks_before(keys@, x as int, b@[j as int] as int));
                    if m > j {
                        assert(ranks_before(keys@, b@[j as int] as int, b@[m] as int));
                    }
                }
            } else {
                assert(b@.take(j + 1) =~= b@.take(j as int).push(x));
                assert forall|m: int| j < m < b@.len() implies ranks_before(keys@, x as int, #[trigger] b@[m] as int) by {
                    assert(ranks_before(keys@, b@[j as int] as int, b@[m] as int));
                }
                assert forall|m: int| i <= m < a@.len() implies ranks_before(keys@, x as int, #[trigger] a@[m] as int) by {
                    assert(ranks_before(keys@, x as int, a@[i as int] as int));
                    if m > i {
                        assert(ranks_before(keys@, a@[i as int] as int, a@[m] as int));
                    }
                }
            }
        }
        let ghost r0 = r@;
        r.push(x);
        proof {
            vstd::seq_lib::to_multiset_build(r0, x);
            if take_a {
                vstd::seq_lib::to_multiset_build(a@.take(i as int), x);
            } else {
                vstd::seq_lib::to_multiset_build(b@.take(j as int), x);
            }
            assert forall|k: int, l: int| 0 <= k < l < r@.len() implies ranks_before(keys@, #[trigger] r@[k] as int, #[trigger] r@[l] as int) by {
                if l == r@.len() - 1 {
                    assert(r@[k] == r0[k]);
                    if take_a {
                        assert(ranks_before(keys@, r0[k] as int, a@[i as int] as int));
                    } else {
                        assert(ranks_before(keys@, r0[k] as int, b@[j as int] as int));
                    }
                } else {
                    assert(r@[k] == r0[k] && r@[l] == r0[l]);
                }
            }
        }
        if take_a {
            i += 1;
        } else {
            j += 1;
        }
        proof {
            assert forall|k: int, m: int|
                0 <= k < r@.len() && i <= m < a@.len() implies ranks_before(keys@, #[trigger] r@[k] as int, #[trigger] a@[m] as int) by {
                if k < r0.len() {
                    assert(r@[k] == r0[k]);
                }
            }
            assert forall|k: int, m: int|
                0 <= k < r@.len() && j <= m < b@.len() implies ranks_before(keys@, #[trigger] r@[k] as int, #[trigger] b@[m] as int) by {
                if k < r0.len() {
                    assert(r@[k] == r0[k]);
                }
            }
        }
    }
    proof {
        assert(a@.take(i as int) =~= a@);
        assert(b@.take(j as int) =~= b@);
    }
    r
}

fn sort_range(keys: &[i64], lo: usize, hi: usize) -> (r: Vec<usize>)
    requires
        lo <= hi <= keys@.len(),
    ensures
        in_rank_order(keys@, r@),
        r@.to_multiset() == index_range(lo as int, hi as int).to_multiset(),
        forall|i: int| 0 <= i < r@.len() ==> lo <= #[trigger] r@[i] < hi,
    decreases hi - lo,
{
    broadcast use vstd::seq_lib::group_seq_properties;

    if hi - lo == 0 {
        proof {
            assert(index_range(lo as int, hi as int) =~= Seq::<usize>::empty());
        }
        Vec::new()
    } else if hi - lo == 1 {
        let mut r = Vec::new();
        r.push(lo);
        proof {
            assert(index_range(lo as int, hi as int) =~= Seq::<usize>::empty().push(lo));
            assert(r@ =~= Seq::<usize>::empty().push(lo));
        }
        r
    } else {
        let mid = lo + (hi - lo) / 2;
        let a = sort_range(keys, lo, mid);
        let b = sort_range(keys, mid, hi);
        proof {
            assert(index_range(lo as int, hi as int) =~= index_range(lo as int, mid as int) + index_range(mid as int, hi as int));
            vstd::seq_lib::lemma_multiset_commutative(index_range(lo as int, mid as int), index_range(mid as int, hi as int));
        }
        let ghost av = a@;
        let ghost bv = b@;
        let r = merge(keys, a, b, mid);
        proof {
            assert forall|i: int| 0 <= i < r@.len() implies lo <= #[trigger] r@[i] < hi by {
                assert(r@.to_multiset().count(r@[i]) > 0);
                assert(av.to_multiset().add(bv.to_multiset()).count(r@[i]) > 0);
                if av.to_multiset().count(r@[i]) > 0 {
                    assert(av.contains(r@[i]));
                } else {
                    assert(bv.to_multiset().count(r@[i]) > 0);
                    assert(bv.contains(r@[i]));
                }
            }
        }
        r
    }
}

/// The order in which to take entries of the given weight keys: a
/// permutation of their indices, heaviest first, and in index order among
/// equal keys (a stable sort by descending key).
pub fn weight_order(keys: &[i64]) -> (r: Vec<usize>)
    ensures
        r@.len() == keys@.len(),
        is_rank_order(keys@, r@),
        forall|i: int| 0 <= i < r@.len() ==> #[trigger] r@[i] < keys@.len(),
{
    broadcast use vstd::seq_lib::group_seq_properties;

    let r = sort_range(keys, 0, keys.len());
    proof {
        assert(r@.len() == r@.to_multiset().len());
        assert(index_range(0, keys@.len() as int).to_multiset().len() == keys@.len());
    }
    r
}

} // verus!
