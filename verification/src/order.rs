//! Stable ordering of records by a number and two texts.

use vstd::prelude::*;

use crate::text;

verus! {

/// What records are ordered by: a number first, then two texts.
pub struct Key {
    pub rank: i64,
    pub first: String,
    pub second: String,
}

/// The view of a `Key`.
pub struct KeyView {
    pub rank: int,
    pub first: Seq<char>,
    pub second: Seq<char>,
}

impl View for Key {
    type V = KeyView;

    open spec fn view(&self) -> KeyView {
        KeyView { rank: self.rank as int, first: self.first@, second: self.second@ }
    }
}

/// `a` comes before `b`.
pub open spec fn key_before(a: KeyView, b: KeyView) -> bool {
    a.rank < b.rank || (a.rank == b.rank && (text::before(a.first, b.first) || (a.first == b.first
        && text::before(a.second, b.second))))
}

/// The views of the keys in `v`.
pub open spec fn key_views(v: Seq<Key>) -> Seq<KeyView> {
    Seq::new(v.len(), |i: int| v[i]@)
}

/// Positions as numbers.
pub open spec fn places(v: Seq<usize>) -> Seq<int> {
    Seq::new(v.len(), |i: int| v[i] as int)
}

/// `perm` lists the positions of `keys`, each once, in the order of the keys; of equal keys the
/// one that stood first stays first. There is exactly one such list.
pub open spec fn stable_order(keys: Seq<KeyView>, perm: Seq<int>) -> bool {
    &&& perm.len() == keys.len()
    &&& forall|i: int| 0 <= i < perm.len() ==> 0 <= (#[trigger] perm[i]) < keys.len()
    &&& forall|i: int, j: int|
        0 <= i < j < perm.len() ==> in_order(keys, #[trigger] perm[i], #[trigger] perm[j])
}

/// Position `p` goes before position `q`.
pub open spec fn in_order(keys: Seq<KeyView>, p: int, q: int) -> bool {
    key_before(keys[p], keys[q]) || (keys[p] == keys[q] && p < q)
}

proof fn lemma_key_total(a: KeyView, b: KeyView)
    ensures
        key_before(a, b) || key_before(b, a) || a == b,
        !(key_before(a, b) && key_before(b, a)),
        !key_before(a, a),
{
    text::lemma_before_total(a.first, b.first);
    text::lemma_before_total(a.second, b.second);
    text::lemma_before_total(a.first, a.first);
    text::lemma_before_total(a.second, a.second);
}

proof fn lemma_key_transitive(a: KeyView, b: KeyView, c: KeyView)
    requires
        key_before(a, b),
        key_before(b, c),
    ensures
        key_before(a, c),
{
    if a.rank == b.rank && b.rank == c.rank {
        if text::before(a.first, b.first) && text::before(b.first, c.first) {
            text::lemma_before_transitive(a.first, b.first, c.first);
        }
        text::lemma_before_total(a.first, a.first);
        if a.first == b.first && b.first == c.first {
            text::lemma_before_transitive(a.second, b.second, c.second);
        }
    }
}

fn before(a: &Key, b: &Key) -> (r: bool)
    ensures
        r == key_before(a@, b@),
{
    if a.rank != b.rank {
        return a.rank < b.rank;
    }
    if !text::same(a.first.as_str(), b.first.as_str()) {
        return text::comes_before(a.first.as_str(), b.first.as_str());
    }
    proof {
        text::lemma_before_total(a.first@, b.first@);
    }
    text::comes_before(a.second.as_str(), b.second.as_str())
}

/// The positions of `keys` in the order of the keys, equal keys in the order in which they stand.
pub fn order(keys: &Vec<Key>) -> (perm: Vec<usize>)
    ensures
        stable_order(key_views(keys@), places(perm@)),
        perm@.len() == keys@.len(),
        forall|i: int| 0 <= i < perm@.len() ==> (#[trigger] perm@[i]) < keys@.len(),
{
    let ghost kv = key_views(keys@);
    let mut perm: Vec<usize> = Vec::new();
    let mut n: usize = 0;
    while n < keys.len()
        invariant
            kv == key_views(keys@),
            n <= keys@.len(),
            perm@.len() == n,
            forall|i: int| 0 <= i < perm@.len() ==> (#[trigger] perm@[i]) < n,
            forall|i: int, j: int|
                0 <= i < j < perm@.len() ==> in_order(
                    kv,
                    (#[trigger] perm@[i]) as int,
                    (#[trigger] perm@[j]) as int,
                ),
        decreases keys@.len() - n,
    {
        let mut lo: usize = 0;
        let mut hi: usize = n;
        while lo < hi
            invariant
                kv == key_views(keys@),
                n < keys@.len(),
                perm@.len() == n,
                lo <= hi <= n,
                forall|i: int| 0 <= i < perm@.len() ==> (#[trigger] perm@[i]) < n,
                forall|i: int, j: int|
                    0 <= i < j < perm@.len() ==> in_order(
                        kv,
                        (#[trigger] perm@[i]) as int,
                        (#[trigger] perm@[j]) as int,
                    ),
                forall|i: int|
                    0 <= i < lo ==> !key_before(kv[n as int], kv[(#[trigger] perm@[i]) as int]),
                forall|i: int|
                    hi <= i < n ==> key_before(kv[n as int], kv[(#[trigger] perm@[i]) as int]),
            decreases hi - lo,
        {
            let mid: usize = lo + (hi - lo) / 2;
            let at = perm[mid];
            if before(&keys[n], &keys[at]) {
                assert forall|i: int| mid <= i < n implies key_before(
                    kv[n as int],
                    kv[(#[trigger] perm@[i]) as int],
                ) by {
                    if mid < i {
                        assert(in_order(kv, perm@[mid as int] as int, perm@[i] as int));
                        if key_before(kv[at as int], kv[perm@[i] as int]) {
                            lemma_key_transitive(kv[n as int], kv[at as int], kv[perm@[i] as int]);
                        }
                    }
                }
                hi = mid;
            } else {
                assert forall|i: int| 0 <= i < mid + 1 implies !key_before(
                    kv[n as int],
                    kv[(#[trigger] perm@[i]) as int],
                ) by {
                    if i < mid {
                        assert(in_order(kv, perm@[i] as int, perm@[mid as int] as int));
                        if key_before(kv[n as int], kv[perm@[i] as int]) {
                            if key_before(kv[perm@[i] as int], kv[at as int]) {
                                lemma_key_transitive(
                                    kv[n as int],
                                    kv[perm@[i] as int],
                                    kv[at as int],
                                );
                            }
                        }
                    }
                }
                lo = mid + 1;
            }
        }
        let ghost before_insert = perm@;
        perm.insert(lo, n);
        proof {
            assert forall|i: int, j: int| 0 <= i < j < perm@.len() implies in_order(
                kv,
                (#[trigger] perm@[i]) as int,
                (#[trigger] perm@[j]) as int,
            ) by {
                let oi = if i < lo { i } else { i - 1 };
                let oj = if j < lo { j } else { j - 1 };
                if i != lo {
                    assert(perm@[i] == before_insert[oi]);
                }
                if j != lo {
                    assert(perm@[j] == before_insert[oj]);
                }
                if j == lo {
                    lemma_key_total(kv[perm@[i] as int], kv[n as int]);
                }
            }
            assert forall|i: int| 0 <= i < perm@.len() implies (#[trigger] perm@[i]) < n + 1 by {
                if i < lo {
                    assert(perm@[i] == before_insert[i]);
                } else if i > lo {
                    assert(perm@[i] == before_insert[i - 1]);
                }
            }
        }
        n += 1;
    }
    proof {
        let at = places(perm@);
        assert forall|i: int, j: int| 0 <= i < j < at.len() implies in_order(
            kv,
            #[trigger] at[i],
            #[trigger] at[j],
        ) by {
            assert(in_order(kv, perm@[i] as int, perm@[j] as int));
        }
    }
    perm
}

/// Two stable orders of the same keys are the same.
pub proof fn lemma_stable_order_unique(keys: Seq<KeyView>, a: Seq<int>, b: Seq<int>)
    requires
        stable_order(keys, a),
        stable_order(keys, b),
    ensures
        a == b,
    decreases keys.len(),
{
    lemma_lists_all(keys, a);
    lemma_lists_all(keys, b);
    assert forall|k: int| 0 <= k < a.len() implies a[k] == b[k] by {
        lemma_same_at(keys, a, b, k);
    }
    assert(a =~= b);
}

/// Of two positions at most one goes before the other.
pub proof fn lemma_in_order_strict(keys: Seq<KeyView>, p: int, q: int)
    ensures
        !(in_order(keys, p, q) && in_order(keys, q, p)),
{
    lemma_key_total(keys[p], keys[q]);
}

/// Every position is listed.
pub proof fn lemma_lists_all(keys: Seq<KeyView>, a: Seq<int>)
    requires
        stable_order(keys, a),
    ensures
        forall|p: int| 0 <= p < keys.len() ==> #[trigger] a.contains(p),
{
    assert forall|i: int, j: int| 0 <= i < j < a.len() implies #[trigger] a[i] != #[trigger] a[j] by {
        lemma_in_order_strict(keys, a[i], a[j]);
    }
    assert(a.no_duplicates()) by {
        assert forall|i: int, j: int| 0 <= i < a.len() && 0 <= j < a.len() && i != j implies a[i] != a[j] by {
            if i < j {
                assert(a[i] != a[j]);
            } else {
                assert(a[j] != a[i]);
            }
        }
    }
    a.unique_seq_to_set();
    let all = vstd::set_lib::set_int_range(0, keys.len() as int);
    vstd::set_lib::lemma_int_range(0, keys.len() as int);
    assert(a.to_set().subset_of(all)) by {
        assert forall|x: int| a.to_set().contains(x) implies all.contains(x) by {
            let i = choose|i: int| 0 <= i < a.len() && a[i] == x;
            assert(0 <= a[i] < keys.len());
        }
    }
    vstd::set_lib::lemma_subset_equality(a.to_set(), all);
    assert forall|p: int| 0 <= p < keys.len() implies #[trigger] a.contains(p) by {
        assert(all.contains(p));
        assert(a.to_set().contains(p));
    }
}

proof fn lemma_same_at(keys: Seq<KeyView>, a: Seq<int>, b: Seq<int>, k: int)
    requires
        stable_order(keys, a),
        stable_order(keys, b),
        forall|p: int| 0 <= p < keys.len() ==> #[trigger] a.contains(p),
        forall|p: int| 0 <= p < keys.len() ==> #[trigger] b.contains(p),
        0 <= k < a.len(),
    ensures
        a[k] == b[k],
    decreases k,
{
    assert forall|j: int| 0 <= j < k implies a[j] == b[j] by {
        lemma_same_at(keys, a, b, j);
    }
    if a[k] != b[k] {
        assert(b.contains(a[k]));
        assert(a.contains(b[k]));
        let i = choose|i: int| 0 <= i < b.len() && b[i] == a[k];
        let j = choose|j: int| 0 <= j < a.len() && a[j] == b[k];
        if i < k {
            assert(a[i] == b[i]);
            assert(in_order(keys, a[i], a[k]));
            lemma_in_order_strict(keys, a[i], a[k]);
        }
        if j < k {
            assert(b[j] == a[j]);
            assert(in_order(keys, b[j], b[k]));
            lemma_in_order_strict(keys, b[j], b[k]);
        }
        assert(in_order(keys, b[k], b[i]));
        assert(in_order(keys, a[k], a[j]));
        lemma_in_order_strict(keys, a[k], b[k]);
    }
}

/// Keys can always be put in order.
pub proof fn lemma_order_exists(keys: Seq<KeyView>)
    ensures
        exists|perm: Seq<int>| stable_order(keys, perm),
    decreases keys.len(),
{
    if keys.len() == 0 {
        assert(stable_order(keys, Seq::<int>::empty()));
    } else {
        let n = keys.len() - 1;
        let rest = keys.drop_last();
        lemma_order_exists(rest);
        let perm = choose|perm: Seq<int>| stable_order(rest, perm);
        let at = insert_place(keys, perm, n, 0);
        lemma_insert_place(keys, perm, n, 0);
        let all = perm.insert(at, n);
        assert forall|i: int, j: int| 0 <= i < j < all.len() implies in_order(
            keys,
            #[trigger] all[i],
            #[trigger] all[j],
        ) by {
            let oi = if i < at { i } else { i - 1 };
            let oj = if j < at { j } else { j - 1 };
            if i != at {
                assert(all[i] == perm[oi]);
            }
            if j != at {
                assert(all[j] == perm[oj]);
            }
            if i != at && j != at {
                assert(in_order(rest, perm[oi], perm[oj]));
            } else if j == at {
                lemma_key_total(keys[all[i]], keys[n]);
            }
        }
        assert forall|i: int| 0 <= i < all.len() implies 0 <= (#[trigger] all[i]) < keys.len() by {
            if i < at {
                assert(all[i] == perm[i]);
            } else if i > at {
                assert(all[i] == perm[i - 1]);
            }
        }
        assert(stable_order(keys, all));
    }
}

/// Where position `n` goes among positions that are in order: before the first with a larger key.
spec fn insert_place(keys: Seq<KeyView>, perm: Seq<int>, n: int, from: int) -> int
    decreases perm.len() - from,
{
    if from >= perm.len() || key_before(keys[n], keys[perm[from]]) {
        from
    } else {
        insert_place(keys, perm, n, from + 1)
    }
}

proof fn lemma_insert_place(keys: Seq<KeyView>, perm: Seq<int>, n: int, from: int)
    requires
        stable_order(keys.drop_last(), perm),
        0 <= n == keys.len() - 1,
        0 <= from <= perm.len(),
        forall|i: int|
            0 <= i < from ==> !key_before(keys[n], keys[#[trigger] perm[i]]),
    ensures
        from <= insert_place(keys, perm, n, from) <= perm.len(),
        forall|i: int|
            0 <= i < insert_place(keys, perm, n, from) ==> !key_before(
                keys[n],
                keys[#[trigger] perm[i]],
            ),
        forall|i: int|
            insert_place(keys, perm, n, from) <= i < perm.len() ==> key_before(
                keys[n],
                keys[#[trigger] perm[i]],
            ),
    decreases perm.len() - from,
{
    let rest = keys.drop_last();
    if from >= perm.len() {
    } else if key_before(keys[n], keys[perm[from]]) {
        assert forall|i: int| from <= i < perm.len() implies key_before(
            keys[n],
            keys[#[trigger] perm[i]],
        ) by {
            assert(0 <= perm[from] < rest.len() && 0 <= perm[i] < rest.len());
            assert(rest[perm[from]] == keys[perm[from]] && rest[perm[i]] == keys[perm[i]]);
            if i > from {
                assert(in_order(rest, perm[from], perm[i]));
                if key_before(keys[perm[from]], keys[perm[i]]) {
                    lemma_key_transitive(
                        keys[n],
                        keys[perm[from]],
                        keys[perm[i]],
                    );
                }
            }
        }
    } else {
        lemma_insert_place(keys, perm, n, from + 1);
    }
}

/// No position is listed twice, and of equal keys the one that stood first stays first.
pub proof fn lemma_places_differ(keys: Seq<KeyView>, perm: Seq<int>, i: int, j: int)
    requires
        stable_order(keys, perm),
        0 <= i < j < perm.len(),
    ensures
        perm[i] != perm[j],
        keys[perm[i]] == keys[perm[j]] ==> perm[i] < perm[j],
{
    assert(in_order(keys, perm[i], perm[j]));
    lemma_key_total(keys[perm[i]], keys[perm[j]]);
}

} // verus!
