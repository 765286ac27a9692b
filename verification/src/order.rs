//! Sorting archive paths into lexicographic byte order.
use vstd::prelude::*;
use crate::text::{byte_vec_views, bytes_less, bytes_lt, lemma_bytes_lt_total, lemma_bytes_lt_transitive};

verus! {

broadcast use vstd::seq_lib::group_seq_properties;

/// The key of index `a` comes strictly before the key of index `b`.
pub open spec fn key_lt(kv: Seq<Seq<u8>>, a: usize, b: usize) -> bool {
    bytes_lt(kv[a as int], kv[b as int])
}

/// `order` lists indices whose keys strictly increase.
pub open spec fn sorted_by_key(order: Seq<usize>, kv: Seq<Seq<u8>>) -> bool {
    forall|i: int, j: int| 0 <= i < j < order.len() ==> #[trigger] key_lt(kv, order[i], order[j])
}

/// Distinct positions of `kv` hold distinct keys.
pub open spec fn distinct_keys(kv: Seq<Seq<u8>>) -> bool {
    forall|a: int, b: int| 0 <= a < kv.len() && 0 <= b < kv.len() && a != b ==> kv[a] != kv[b]
}

/// All indices of `s` are below `n`.
pub open spec fn in_range(s: Seq<usize>, n: int) -> bool {
    forall|i: int| 0 <= i < s.len() ==> #[trigger] s[i] < n
}

/// Merges two key-sorted index lists that share no index.
fn merge(kc: &Vec<Vec<u8>>, l: &Vec<usize>, r: &Vec<usize>) -> (out: Vec<usize>)
    requires
        distinct_keys(byte_vec_views(kc@)),
        in_range(l@, kc@.len() as int),
        in_range(r@, kc@.len() as int),
        sorted_by_key(l@, byte_vec_views(kc@)),
        sorted_by_key(r@, byte_vec_views(kc@)),
        forall|a: int, b: int| 0 <= a < l@.len() && 0 <= b < r@.len() ==> l@[a] != r@[b],
    ensures
        out@.len() == l@.len() + r@.len(),
        in_range(out@, kc@.len() as int),
        sorted_by_key(out@, byte_vec_views(kc@)),
        forall|x: usize| out@.contains(x) <==> (l@.contains(x) || r@.contains(x)),
{
    let ghost kv = byte_vec_views(kc@);
    let mut out: Vec<usize> = Vec::new();
    let mut i: usize = 0;
    let mut j: usize = 0;
    while i < l.len() || j < r.len()
        invariant
            kv == byte_vec_views(kc@),
            distinct_keys(kv),
            in_range(l@, kc@.len() as int),
            in_range(r@, kc@.len() as int),
            sorted_by_key(l@, kv),
            sorted_by_key(r@, kv),
            forall|a: int, b: int| 0 <= a < l@.len() && 0 <= b < r@.len() ==> l@[a] != r@[b],
            i <= l@.len(),
            j <= r@.len(),
            out@.len() == i + j,
            in_range(out@, kc@.len() as int),
            sorted_by_key(out@, kv),
            forall|x: usize| out@.contains(x) <==> (l@.take(i as int).contains(x) || r@.take(j as int).contains(x)),
            forall|a: int, k: int| 0 <= a < out@.len() && i <= k < l@.len() ==> key_lt(kv, #[trigger] out@[a], #[trigger] l@[k]),
            forall|a: int, k: int| 0 <= a < out@.len() && j <= k < r@.len() ==> key_lt(kv, #[trigger] out@[a], #[trigger] r@[k]),
        decreases l@.len() + r@.len() - i - j,
    {
        let take_left = if i >= l.len() {
            false
        } else if j >= r.len() {
            true
        } else {
            bytes_less(&kc[l[i]], &kc[r[j]])
        };
        let ghost old_out = out@;
        if take_left {
            let x = l[i];
            proof {
                assert(x < kc@.len());
                assert forall|k: int| j <= k < r@.len() implies key_lt(kv, x, #[trigger] r@[k]) by {
                    assert(kv[l@[i as int] as int] == kc@[l@[i as int] as int]@);
                    assert(kv[r@[j as int] as int] == kc@[r@[j as int] as int]@);
                    if k > j {
                        assert(key_lt(kv, r@[j as int], r@[k]));
                        lemma_bytes_lt_transitive(kv[x as int], kv[r@[j as int] as int], kv[r@[k] as int]);
                    }
                }
            }
            out.push(x);
            proof {
                assert(l@.take(i + 1) =~= l@.take(i as int).push(x));
            }
            i = i + 1;
        } else {
            let y = r[j];
            proof {
                assert(y < kc@.len());
                if i < l@.len() {
                    let x = l@[i as int];
                    assert(kv[x as int] == kc@[x as int]@);
                    assert(kv[y as int] == kc@[y as int]@);
                    assert(x != y);
                    assert(kv[x as int] != kv[y as int]);
                    lemma_bytes_lt_total(kv[x as int], kv[y as int]);
                }
                assert forall|k: int| i <= k < l@.len() implies key_lt(kv, y, #[trigger] l@[k]) by {
                    if k > i {
                        assert(key_lt(kv, l@[i as int], l@[k]));
                        lemma_bytes_lt_transitive(kv[y as int], kv[l@[i as int] as int], kv[l@[k] as int]);
                    }
                }
            }
            out.push(y);
            proof {
                assert(r@.take(j + 1) =~= r@.take(j as int).push(y));
            }
            j = j + 1;
        }
        proof {
            assert forall|a: int, b: int| 0 <= a < b < out@.len() implies #[trigger] key_lt(kv, out@[a], out@[b]) by {
                if b == out@.len() - 1 {
                    assert(out@[a] == old_out[a]);
                }
            }
        }
    }
    proof {
        assert(l@.take(l@.len() as int) =~= l@);
        assert(r@.take(r@.len() as int) =~= r@);
    }
    out
}

/// Sorts `items`, indices of `kc` with no index twice, by the keys they point to.
fn merge_sort(kc: &Vec<Vec<u8>>, items: &[usize]) -> (out: Vec<usize>)
    requires
        distinct_keys(byte_vec_views(kc@)),
        in_range(items@, kc@.len() as int),
        items@.no_duplicates(),
    ensures
        out@.len() == items@.len(),
        in_range(out@, kc@.len() as int),
        sorted_by_key(out@, byte_vec_views(kc@)),
        forall|x: usize| out@.contains(x) <==> items@.contains(x),
    decreases items@.len(),
{
    let n = items.len();
    if n <= 1 {
        let mut out: Vec<usize> = Vec::new();
        if n == 1 {
            out.push(items[0]);
            assert(out@ =~= items@);
        } else {
            assert(out@ =~= items@);
        }
        return out;
    }
    let mid = n / 2;
    let mut left: Vec<usize> = Vec::new();
    let mut right: Vec<usize> = Vec::new();
    let mut i: usize = 0;
    while i < n
        invariant
            n == items@.len(),
            mid <= n,
            i <= n,
            left@ == items@.take(if i < mid { i as int } else { mid as int }),
            i >= mid ==> right@ == items@.subrange(mid as int, i as int),
            i < mid ==> right@.len() == 0,
        decreases n - i,
    {
        if i < mid {
            left.push(items[i]);
            assert(left@ =~= items@.take(i + 1));
        } else {
            right.push(items[i]);
            assert(right@ =~= items@.subrange(mid as int, i + 1));
        }
        i = i + 1;
    }
    proof {
        assert(items@ =~= left@ + right@);
        assert forall|a: int, b: int| 0 <= a < left@.len() && 0 <= b < right@.len() implies left@[a] != right@[b] by {
            assert(left@[a] == items@[a]);
            assert(right@[b] == items@[mid + b]);
        }
        assert(left@.no_duplicates());
        assert forall|a: int, b: int| 0 <= a < right@.len() && 0 <= b < right@.len() && a != b implies right@[a] != right@[b] by {
            assert(right@[a] == items@[mid + a]);
            assert(right@[b] == items@[mid + b]);
        }
    }
    let sl = merge_sort(kc, left.as_slice());
    let sr = merge_sort(kc, right.as_slice());
    proof {
        assert forall|a: int, b: int| 0 <= a < sl@.len() && 0 <= b < sr@.len() implies sl@[a] != sr@[b] by {
            assert(sl@.contains(sl@[a]));
            assert(sr@.contains(sr@[b]));
            if sl@[a] == sr@[b] {
                let x = sl@[a];
                let p = choose|p: int| 0 <= p < left@.len() && left@[p] == x;
                let q = choose|q: int| 0 <= q < right@.len() && right@[q] == x;
                assert(left@[p] != right@[q]);
            }
        }
    }
    let out = merge(kc, &sl, &sr);
    proof {
        assert forall|x: usize| out@.contains(x) <==> items@.contains(x) by {
            if items@.contains(x) {
                let p = choose|p: int| 0 <= p < items@.len() && items@[p] == x;
                if p < mid {
                    assert(left@[p] == x);
                    assert(left@.contains(x));
                } else {
                    assert(right@[p - mid] == x);
                    assert(right@.contains(x));
                }
            }
            if out@.contains(x) {
                if left@.contains(x) {
                    let p = choose|p: int| 0 <= p < left@.len() && left@[p] == x;
                    assert(items@[p] == x);
                } else {
                    let p = choose|p: int| 0 <= p < right@.len() && right@[p] == x;
                    assert(items@[mid + p] == x);
                }
            }
        }
    }
    out
}

/// The indices `0..kc.len()`, sorted by the keys they point to.
pub fn sorted_order(kc: &Vec<Vec<u8>>) -> (out: Vec<usize>)
    requires
        distinct_keys(byte_vec_views(kc@)),
    ensures
        out@.len() == kc@.len(),
        in_range(out@, kc@.len() as int),
        sorted_by_key(out@, byte_vec_views(kc@)),
        forall|x: usize| x < kc@.len() ==> out@.contains(x),
{
    let mut items: Vec<usize> = Vec::new();
    let mut i: usize = 0;
    while i < kc.len()
        invariant
            i <= kc@.len(),
            items@.len() == i,
            forall|k: int| 0 <= k < i ==> items@[k] == k,
        decreases kc@.len() - i,
    {
        items.push(i);
        i = i + 1;
    }
    proof {
        assert forall|x: usize| x < kc@.len() implies items@.contains(x) by {
            assert(items@[x as int] == x);
        }
    }
    merge_sort(kc, items.as_slice())
}

} // verus!
