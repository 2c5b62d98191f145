//! The `k`-element combinations of a sequence, in lexicographic order of positions.

use itertools::Itertools;
use vstd::prelude::*;

verus! {

/// The number of `k`-element subsets of an `n`-element set.
pub open spec fn binomial(n: nat, k: nat) -> nat
    decreases n,
{
    if k == 0 {
        1
    } else if n == 0 {
        0
    } else {
        binomial((n - 1) as nat, (k - 1) as nat) + binomial((n - 1) as nat, k)
    }
}

/// Every way to pick `k` items at strictly increasing positions, as the sequence of
/// picked items, ordered lexicographically by positions: first the picks that hold the
/// first item, then those that do not.
pub open spec fn combinations_of<T>(items: Seq<T>, k: nat) -> Seq<Seq<T>>
    decreases items.len(),
{
    if k == 0 {
        seq![Seq::<T>::empty()]
    } else if items.len() == 0 {
        Seq::<Seq<T>>::empty()
    } else {
        combinations_of(items.drop_first(), (k - 1) as nat).map_values(
            |c: Seq<T>| seq![items[0]] + c,
        ) + combinations_of(items.drop_first(), k)
    }
}

/// Calls `Itertools::combinations` on the items and collects what it yields. The
/// contract claims that it yields every pick of `k` positions once, in lexicographic
/// order, each as the vector of the items at those positions, and one empty vector
/// for `k == 0`. The call first stores the positions `0..k`, so `k` is kept to the
/// number of items and to what a vector of positions can hold; the number of picks
/// has to fit the length of a vector.
#[verifier::external_body]
pub(crate) fn combinations<T: Copy>(items: &Vec<T>, k: usize) -> (combos: Vec<Vec<T>>)
    requires
        k <= items@.len(),
        k * 8 <= isize::MAX,
        binomial(items@.len(), k as nat) <= usize::MAX,
    ensures
        combos@.len() == combinations_of(items@, k as nat).len(),
        forall|i: int|
            0 <= i < combos@.len() ==> (#[trigger] combos@[i])@ == combinations_of(items@, k as nat)[i],
{
    items.iter().copied().combinations(k).collect()
}

/// Calls `Itertools::tuple_combinations` for pairs and collects what it yields. The
/// contract claims that it yields the same picks as `combinations` with `k == 2`, in
/// the same order, each as a pair.
#[verifier::external_body]
pub(crate) fn pair_combinations<T: Copy>(items: &Vec<T>) -> (pairs: Vec<(T, T)>)
    requires
        binomial(items@.len(), 2) <= usize::MAX,
    ensures
        pairs@.len() == combinations_of(items@, 2).len(),
        forall|i: int|
            0 <= i < pairs@.len() ==> combinations_of(items@, 2)[i] == seq![
                (#[trigger] pairs@[i]).0,
                pairs@[i].1,
            ],
{
    items.iter().copied().tuple_combinations().collect()
}

/// There are `binomial(n, k)` combinations of `k` out of `n` items.
pub proof fn lemma_combinations_len<T>(items: Seq<T>, k: nat)
    ensures
        combinations_of(items, k).len() == binomial(items.len(), k),
    decreases items.len(),
{
    if k != 0 && items.len() != 0 {
        lemma_combinations_len(items.drop_first(), (k - 1) as nat);
        lemma_combinations_len(items.drop_first(), k);
    }
}

/// Each combination holds `k` of the items, and holds none twice where the items
/// hold none twice.
pub proof fn lemma_combination_members<T>(items: Seq<T>, k: nat, j: int)
    requires
        0 <= j < combinations_of(items, k).len(),
    ensures
        combinations_of(items, k)[j].len() == k,
        forall|i: int| 0 <= i < k ==> items.contains(#[trigger] combinations_of(items, k)[j][i]),
        items.no_duplicates() ==> combinations_of(items, k)[j].no_duplicates(),
    decreases items.len(),
{
    if k != 0 && items.len() != 0 {
        let rest = items.drop_first();
        let with_first = combinations_of(rest, (k - 1) as nat).map_values(
            |c: Seq<T>| seq![items[0]] + c,
        );
        let combo = combinations_of(items, k)[j];
        assert forall|x: T| rest.contains(x) implies items.contains(x) && (items.no_duplicates()
            ==> x != items[0]) by {
            let m = choose|m: int| 0 <= m < rest.len() && rest[m] == x;
            assert(items[m + 1] == x);
        }
        if items.no_duplicates() {
            assert(rest.no_duplicates());
        }
        if j < with_first.len() {
            let tail = combinations_of(rest, (k - 1) as nat)[j];
            lemma_combination_members(rest, (k - 1) as nat, j);
            assert(combo == seq![items[0]] + tail);
            assert(items[0] == items[0] && items.contains(items[0]));
            assert forall|i: int| 0 <= i < k implies items.contains(#[trigger] combo[i]) by {
                if i > 0 {
                    assert(combo[i] == tail[i - 1]);
                    assert(rest.contains(tail[i - 1]));
                }
            }
            if items.no_duplicates() {
                assert forall|a: int, b: int| 0 <= a < k && 0 <= b < k && a != b implies combo[a]
                    != combo[b] by {
                    if a > 0 {
                        assert(combo[a] == tail[a - 1]);
                        assert(rest.contains(tail[a - 1]));
                    }
                    if b > 0 {
                        assert(combo[b] == tail[b - 1]);
                        assert(rest.contains(tail[b - 1]));
                    }
                }
            }
        } else {
            let j2 = j - with_first.len();
            lemma_combination_members(rest, k, j2);
            assert(combo == combinations_of(rest, k)[j2]);
            assert forall|i: int| 0 <= i < k implies items.contains(#[trigger] combo[i]) by {
                assert(rest.contains(combo[i]));
            }
        }
    }
}

/// Every `k`-element set of items is the set of one of the combinations.
pub proof fn lemma_combinations_complete<T>(items: Seq<T>, k: nat, wanted: Set<T>) -> (j: int)
    requires
        items.no_duplicates(),
        wanted.finite(),
        wanted.len() == k,
        wanted.subset_of(items.to_set()),
    ensures
        0 <= j < combinations_of(items, k).len(),
        combinations_of(items, k)[j].to_set() == wanted,
    decreases items.len(),
{
    if k == 0 {
        wanted.lemma_len0_is_empty();
        assert(Seq::<T>::empty().to_set() =~= Set::<T>::empty());
        0
    } else if items.len() == 0 {
        assert(wanted =~= Set::<T>::empty()) by {
            assert forall|x: T| !wanted.contains(x) by {
                if wanted.contains(x) {
                    assert(items.to_set().contains(x));
                }
            }
        }
        0
    } else {
        let rest = items.drop_first();
        let first = items[0];
        let with_first = combinations_of(rest, (k - 1) as nat).map_values(
            |c: Seq<T>| seq![items[0]] + c,
        );
        assert(rest.no_duplicates());
        assert forall|x: T| items.contains(x) && x != first implies rest.contains(x) by {
            let m = choose|m: int| 0 <= m < items.len() && items[m] == x;
            assert(rest[m - 1] == x);
        }
        if wanted.contains(first) {
            let fewer = wanted.remove(first);
            assert(fewer.subset_of(rest.to_set())) by {
                assert forall|x: T| fewer.contains(x) implies rest.to_set().contains(x) by {
                    assert(items.to_set().contains(x));
                }
            }
            let j = lemma_combinations_complete(rest, (k - 1) as nat, fewer);
            let tail = combinations_of(rest, (k - 1) as nat)[j];
            let combo = seq![first] + tail;
            assert(combinations_of(items, k)[j] == combo);
            assert(combo.to_set() =~= wanted) by {
                assert forall|x: T| combo.to_set().contains(x) <==> wanted.contains(x) by {
                    if combo.contains(x) {
                        let m = choose|m: int| 0 <= m < combo.len() && combo[m] == x;
                        if m > 0 {
                            assert(tail[m - 1] == x);
                            assert(tail.to_set().contains(x));
                        }
                    }
                    if wanted.contains(x) {
                        if x == first {
                            assert(combo[0] == x);
                        } else {
                            assert(fewer.contains(x));
                            assert(tail.to_set().contains(x));
                            let m = choose|m: int| 0 <= m < tail.len() && tail[m] == x;
                            assert(combo[m + 1] == x);
                        }
                    }
                }
            }
            j
        } else {
            assert(wanted.subset_of(rest.to_set())) by {
                assert forall|x: T| wanted.contains(x) implies rest.to_set().contains(x) by {
                    assert(items.to_set().contains(x));
                }
            }
            let j = lemma_combinations_complete(rest, k, wanted);
            assert(combinations_of(items, k)[with_first.len() + j] == combinations_of(rest, k)[j]);
            with_first.len() + j
        }
    }
}

/// Whether `wanted` holds the first of the items on which it differs from `other`.
pub open spec fn picks_first<T>(items: Seq<T>, wanted: Set<T>, other: Seq<T>) -> bool {
    exists|p: int|
        0 <= p < items.len() && wanted.contains(#[trigger] items[p]) && !other.contains(items[p]) && forall|
            q: int,
        |
            0 <= q < p ==> (wanted.contains(#[trigger] items[q]) <==> other.contains(items[q]))
}

/// The combinations come in lexicographic order: a set that holds the first item on
/// which it differs from a combination is the set of an earlier combination.
pub proof fn lemma_combinations_order<T>(items: Seq<T>, k: nat, wanted: Set<T>, j: int) -> (i: int)
    requires
        items.no_duplicates(),
        wanted.finite(),
        wanted.len() == k,
        wanted.subset_of(items.to_set()),
        0 <= j < combinations_of(items, k).len(),
        picks_first(items, wanted, combinations_of(items, k)[j]),
    ensures
        0 <= i < j,
        combinations_of(items, k)[i].to_set() == wanted,
    decreases items.len(),
{
    let combo = combinations_of(items, k)[j];
    let p = choose|p: int|
        0 <= p < items.len() && wanted.contains(#[trigger] items[p]) && !combo.contains(items[p]) && forall|
            q: int,
        |
            0 <= q < p ==> (wanted.contains(#[trigger] items[q]) <==> combo.contains(items[q]));
    if k == 0 {
        wanted.lemma_len0_is_empty();
        0
    } else if items.len() == 0 {
        0
    } else {
        let rest = items.drop_first();
        let first = items[0];
        let with_first = combinations_of(rest, (k - 1) as nat).map_values(
            |c: Seq<T>| seq![items[0]] + c,
        );
        assert(rest.no_duplicates());
        assert forall|q: int| 0 <= q < rest.len() implies rest[q] == items[q + 1] && rest[q] != first by {}
        if wanted.contains(first) {
            let fewer = wanted.remove(first);
            assert(fewer.subset_of(rest.to_set())) by {
                assert forall|x: T| fewer.contains(x) implies rest.to_set().contains(x) by {
                    assert(items.to_set().contains(x));
                    let m = choose|m: int| 0 <= m < items.len() && items[m] == x;
                    assert(rest[m - 1] == x);
                }
            }
            if j < with_first.len() {
                let tail = combinations_of(rest, (k - 1) as nat)[j];
                assert(combo == seq![first] + tail);
                assert(combo[0] == first);
                assert(p >= 1);
                assert forall|x: T| tail.contains(x) implies combo.contains(x) by {
                    let m = choose|m: int| 0 <= m < tail.len() && tail[m] == x;
                    assert(combo[m + 1] == x);
                }
                assert forall|x: T| combo.contains(x) && x != first implies tail.contains(x) by {
                    let m = choose|m: int| 0 <= m < combo.len() && combo[m] == x;
                    assert(tail[m - 1] == x);
                }
                assert(picks_first(rest, fewer, tail)) by {
                    assert(fewer.contains(rest[p - 1]) && !tail.contains(rest[p - 1]));
                    assert forall|q: int| 0 <= q < p - 1 implies (fewer.contains(#[trigger] rest[q])
                        <==> tail.contains(rest[q])) by {
                        assert(wanted.contains(items[q + 1]) <==> combo.contains(items[q + 1]));
                    }
                }
                let i = lemma_combinations_order(rest, (k - 1) as nat, fewer, j);
                lemma_prepend_set(first, combinations_of(rest, (k - 1) as nat)[i]);
                assert(combinations_of(items, k)[i] == seq![first] + combinations_of(
                    rest,
                    (k - 1) as nat,
                )[i]);
                assert(fewer.insert(first) =~= wanted);
                i
            } else {
                let i = lemma_combinations_complete(rest, (k - 1) as nat, fewer);
                lemma_prepend_set(first, combinations_of(rest, (k - 1) as nat)[i]);
                assert(combinations_of(items, k)[i] == seq![first] + combinations_of(
                    rest,
                    (k - 1) as nat,
                )[i]);
                assert(fewer.insert(first) =~= wanted);
                i
            }
        } else {
            assert(p >= 1);
            if j < with_first.len() {
                let tail = combinations_of(rest, (k - 1) as nat)[j];
                assert(combo == seq![first] + tail);
                assert(combo[0] == first);
                assert(wanted.contains(items[0]) <==> combo.contains(items[0]));
                0
            } else {
                let j2 = j - with_first.len();
                assert(combo == combinations_of(rest, k)[j2]);
                assert(wanted.subset_of(rest.to_set())) by {
                    assert forall|x: T| wanted.contains(x) implies rest.to_set().contains(x) by {
                        assert(items.to_set().contains(x));
                        let m = choose|m: int| 0 <= m < items.len() && items[m] == x;
                        assert(rest[m - 1] == x);
                    }
                }
                assert(picks_first(rest, wanted, combo)) by {
                    assert(wanted.contains(rest[p - 1]) && !combo.contains(rest[p - 1]));
                    assert forall|q: int| 0 <= q < p - 1 implies (wanted.contains(#[trigger] rest[q])
                        <==> combo.contains(rest[q])) by {
                        assert(wanted.contains(items[q + 1]) <==> combo.contains(items[q + 1]));
                    }
                }
                let i = lemma_combinations_order(rest, k, wanted, j2);
                assert(combinations_of(items, k)[with_first.len() + i] == combinations_of(rest, k)[i]);
                with_first.len() + i
            }
        }
    }
}

/// The set of a sequence with one more item in front.
pub proof fn lemma_prepend_set<T>(first: T, tail: Seq<T>)
    ensures
        (seq![first] + tail).to_set() == tail.to_set().insert(first),
{
    let all = seq![first] + tail;
    assert forall|x: T| all.to_set().contains(x) <==> tail.to_set().insert(first).contains(x) by {
        if all.contains(x) {
            let m = choose|m: int| 0 <= m < all.len() && all[m] == x;
            if m > 0 {
                assert(tail[m - 1] == x);
            }
        }
        if tail.contains(x) {
            let m = choose|m: int| 0 <= m < tail.len() && tail[m] == x;
            assert(all[m + 1] == x);
        }
        if x == first {
            assert(all[0] == x);
        }
    }
    assert(all.to_set() =~= tail.to_set().insert(first));
}

/// `k` times the number of ways to pick `k` of `n` is `n` times the number of ways to
/// pick `k - 1` of `n - 1`.
pub proof fn lemma_binomial_absorb(n: nat, k: nat)
    requires
        n >= 1,
        k >= 1,
    ensures
        k * binomial(n, k) == n * binomial((n - 1) as nat, (k - 1) as nat),
    decreases n,
{
    let a = binomial((n - 1) as nat, (k - 1) as nat);
    let b = binomial((n - 1) as nat, k);
    assert(binomial(n, k) == a + b);
    if n == 1 {
        assert(b == 0);
        if k == 1 {
            assert(a == 1);
        } else {
            assert(a == 0);
        }
        assert(k * (a + b) == n * a) by (nonlinear_arith)
            requires
                n == 1,
                b == 0,
                (k == 1 && a == 1) || a == 0,
        ;
    } else {
        // k * b == (n - 1) * binomial(n - 2, k - 1)
        lemma_binomial_absorb((n - 1) as nat, k);
        let c = binomial((n - 2) as nat, (k - 1) as nat);
        assert(k * b == (n - 1) * c);
        if k == 1 {
            assert(a == 1);
            assert(c == 1);
            assert(k * (a + b) == n * a) by (nonlinear_arith)
                requires
                    k == 1,
                    a == 1,
                    c == 1,
                    k * b == (n - 1) * c,
            ;
        } else {
            // (k - 1) * a == (n - 1) * binomial(n - 2, k - 2)
            lemma_binomial_absorb((n - 1) as nat, (k - 1) as nat);
            let d = binomial((n - 2) as nat, (k - 2) as nat);
            assert((k - 1) * a == (n - 1) * d);
            assert(a == d + c);
            assert(k * (a + b) == n * a) by (nonlinear_arith)
                requires
                    (k - 1) * a == (n - 1) * d,
                    k * b == (n - 1) * c,
                    a == d + c,
            ;
        }
    }
}

/// Picking from more items gives at least as many picks.
pub proof fn lemma_binomial_increasing(n: nat, m: nat, k: nat)
    requires
        n <= m,
    ensures
        binomial(n, k) <= binomial(m, k),
    decreases m,
{
    if n < m {
        lemma_binomial_increasing(n, (m - 1) as nat, k);
    }
}

/// The number of ways to pick up to five items of `n`, by the falling product.
pub proof fn lemma_binomial_small(n: nat)
    ensures
        binomial(n, 0) == 1,
        binomial(n, 1) == n,
        2 * binomial(n, 2) == n * (n - 1),
        6 * binomial(n, 3) == n * (n - 1) * (n - 2),
        24 * binomial(n, 4) == n * (n - 1) * (n - 2) * (n - 3),
        120 * binomial(n, 5) == n * (n - 1) * (n - 2) * (n - 3) * (n - 4),
    decreases n,
{
    if n == 0 {
        assert(0 * (0 - 1) * (0 - 2) == 0) by (nonlinear_arith);
        assert(0 * (0 - 1) * (0 - 2) * (0 - 3) == 0) by (nonlinear_arith);
        assert(0 * (0 - 1) * (0 - 2) * (0 - 3) * (0 - 4) == 0) by (nonlinear_arith);
    } else {
        let p = (n - 1) as nat;
        lemma_binomial_small(p);
        lemma_binomial_absorb(n, 1);
        lemma_binomial_absorb(n, 2);
        lemma_binomial_absorb(n, 3);
        lemma_binomial_absorb(n, 4);
        lemma_binomial_absorb(n, 5);
        let c1 = binomial(p, 1);
        let c2 = binomial(p, 2);
        let c3 = binomial(p, 3);
        let c4 = binomial(p, 4);
        let b1 = binomial(n, 1);
        let b2 = binomial(n, 2);
        let b3 = binomial(n, 3);
        let b4 = binomial(n, 4);
        let b5 = binomial(n, 5);
        assert(b1 == n) by (nonlinear_arith)
            requires
                1 * b1 == n * 1,
        ;
        assert(2 * b2 == n * (n - 1)) by (nonlinear_arith)
            requires
                2 * b2 == n * c1,
                c1 == n - 1,
        ;
        assert(6 * b3 == n * (n - 1) * (n - 2)) by (nonlinear_arith)
            requires
                3 * b3 == n * c2,
                2 * c2 == (n - 1) * (n - 2),
        ;
        assert(24 * b4 == n * (n - 1) * (n - 2) * (n - 3)) by (nonlinear_arith)
            requires
                4 * b4 == n * c3,
                6 * c3 == (n - 1) * (n - 2) * (n - 3),
        ;
        assert(120 * b5 == n * (n - 1) * (n - 2) * (n - 3) * (n - 4)) by (nonlinear_arith)
            requires
                5 * b5 == n * c4,
                24 * c4 == (n - 1) * (n - 2) * (n - 3) * (n - 4),
        ;
    }
}

} // verus!
