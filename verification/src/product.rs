use itertools::Itertools;
use vstd::arithmetic::div_mod::{
    lemma_fundamental_div_mod, lemma_fundamental_div_mod_converse, lemma_mod_pos_bound,
    lemma_multiply_divide_lt,
};
use vstd::arithmetic::power2::{lemma2_to64, lemma_pow2_unfold, pow2};
use vstd::prelude::*;

verus! {

/// The cartesian product of a list of lists, as rows in lexicographic order:
/// the last list varies fastest, the first one slowest.
///
/// The product of no lists at all is the single empty row; the product is
/// empty as soon as one list is empty.
pub open spec fn spec_product<T>(lists: Seq<Seq<T>>) -> Seq<Seq<T>>
    decreases lists.len(),
{
    if lists.len() == 0 {
        seq![Seq::<T>::empty()]
    } else {
        let init = spec_product(lists.drop_last());
        let last = lists.last();
        Seq::new(
            init.len() * last.len(),
            |k: int| init[k / (last.len() as int)].push(last[k % (last.len() as int)]),
        )
    }
}

/// The rows of a vector of vectors.
pub open spec fn rows<T>(lists: Seq<Vec<T>>) -> Seq<Seq<T>> {
    lists.map_values(|row: Vec<T>| row@)
}

/// Every entry of `row` satisfies `hit` at its own position.
pub open spec fn row_hits<T>(row: Seq<T>, hit: spec_fn(int, T) -> bool) -> bool {
    forall|i: int| 0 <= i < row.len() ==> hit(i, #[trigger] row[i])
}

/// Exactly one entry of `list` satisfies `hit` at position `axis`.
pub open spec fn one_hit<T>(list: Seq<T>, axis: int, hit: spec_fn(int, T) -> bool) -> bool {
    exists|j: int|
        0 <= j < list.len() && hit(axis, #[trigger] list[j]) && forall|j2: int|
            0 <= j2 < list.len() && hit(axis, #[trigger] list[j2]) ==> j2 == j
}

/// Calls `Itertools::multi_cartesian_product` on copies of the lists'
/// items and collects what it yields.
///
/// Trusted: the rows come out in the order of `spec_product`, which is
/// the order that itertools documents (the rightmost list advances first,
/// no lists give one empty row, an empty list gives no row).
#[verifier::external_body]
pub(crate) fn cartesian_product<T: Copy>(lists: &Vec<Vec<T>>) -> (out: Vec<Vec<T>>)
    ensures
        rows(out@) == spec_product(rows(lists@)),
{
    lists.iter().map(|list| list.iter().copied()).multi_cartesian_product().collect()
}

/// Calls `Itertools::collect_array` on copies of the items.
///
/// Trusted: the array holds the items in order when there are exactly `N`
/// of them, and there is no array otherwise.
#[verifier::external_body]
pub(crate) fn collect_exact<T: Copy, const N: usize>(items: &[T]) -> (out: Option<[T; N]>)
    ensures
        items@.len() == N ==> out is Some && out->Some_0@ == items@,
        items@.len() != N ==> out is None,
{
    items.iter().copied().collect_array()
}

/// Every row of the product has one entry per list.
pub proof fn lemma_product_row_len<T>(lists: Seq<Seq<T>>)
    ensures
        forall|k: int|
            0 <= k < spec_product(lists).len() ==> (#[trigger] spec_product(lists)[k]).len()
                == lists.len(),
    decreases lists.len(),
{
    if lists.len() > 0 {
        let init = spec_product(lists.drop_last());
        let last = lists.last();
        let m = last.len() as int;
        lemma_product_row_len(lists.drop_last());
        assert forall|k: int| 0 <= k < spec_product(lists).len() implies (
        #[trigger] spec_product(lists)[k]).len() == lists.len() by {
            lemma_index_in_range(k, init.len() as int, m);
        }
    }
}

/// An index below `n * m` splits into a quotient below `n` and a remainder
/// below `m`.
pub proof fn lemma_index_in_range(k: int, n: int, m: int)
    requires
        0 <= k < n * m,
        0 <= n,
        0 <= m,
    ensures
        0 < m,
        0 <= k / m < n,
        0 <= k % m < m,
        k == (k / m) * m + k % m,
{
    if m == 0 {
        assert(n * m == 0) by (nonlinear_arith)
            requires
                m == 0,
        ;
    }
    lemma_mod_pos_bound(k, m);
    lemma_fundamental_div_mod(k, m);
    assert(m * n == n * m) by (nonlinear_arith);
    lemma_multiply_divide_lt(k, m, n);
    assert(m * (k / m) == (k / m) * m) by (nonlinear_arith);
    assert(0 <= k / m) by (nonlinear_arith)
        requires
            0 <= k,
            0 < m,
    ;
}

/// Every entry of every row of the product is taken from the list of its
/// own position.
pub proof fn lemma_product_entries<T>(lists: Seq<Seq<T>>, k: int, i: int) -> (j: int)
    requires
        0 <= k < spec_product(lists).len(),
        0 <= i < lists.len(),
    ensures
        spec_product(lists)[k].len() == lists.len(),
        0 <= j < lists[i].len(),
        spec_product(lists)[k][i] == lists[i][j],
    decreases lists.len(),
{
    lemma_product_row_len(lists);
    let init = spec_product(lists.drop_last());
    let last = lists.last();
    let m = last.len() as int;
    lemma_index_in_range(k, init.len() as int, m);
    lemma_product_row_len(lists.drop_last());
    if i == lists.len() - 1 {
        k % m
    } else {
        lemma_product_entries(lists.drop_last(), k / m, i)
    }
}

/// The product of non-empty lists is not empty, and it is a single row
/// exactly when every list holds a single item.
pub proof fn lemma_product_len<T>(lists: Seq<Seq<T>>)
    requires
        forall|i: int| 0 <= i < lists.len() ==> (#[trigger] lists[i]).len() >= 1,
    ensures
        spec_product(lists).len() >= 1,
        spec_product(lists).len() == 1 <==> forall|i: int|
            0 <= i < lists.len() ==> (#[trigger] lists[i]).len() == 1,
    decreases lists.len(),
{
    if lists.len() > 0 {
        let head = lists.drop_last();
        let n = spec_product(head).len() as int;
        let m = lists.last().len() as int;
        lemma_product_len(head);
        assert(n * m >= 1 && (n * m == 1 <==> n == 1 && m == 1)) by (nonlinear_arith)
            requires
                n >= 1,
                m >= 1,
        ;
        if spec_product(lists).len() == 1 {
            assert forall|i: int| 0 <= i < lists.len() implies (#[trigger] lists[i]).len()
                == 1 by {
                if i < lists.len() - 1 {
                    assert(head[i] == lists[i]);
                }
            }
        }
        if forall|i: int| 0 <= i < lists.len() ==> (#[trigger] lists[i]).len() == 1 {
            assert forall|i: int| 0 <= i < head.len() implies (#[trigger] head[i]).len()
                == 1 by {
                assert(head[i] == lists[i]);
            }
        }
    }
}

/// The product of `n` lists of two items each has two to the `n` rows.
pub proof fn lemma_product_of_pairs<T>(lists: Seq<Seq<T>>)
    requires
        forall|i: int| 0 <= i < lists.len() ==> (#[trigger] lists[i]).len() == 2,
    ensures
        spec_product(lists).len() == pow2(lists.len()),
    decreases lists.len(),
{
    if lists.len() == 0 {
        lemma2_to64();
    } else {
        let head = lists.drop_last();
        assert forall|i: int| 0 <= i < head.len() implies (#[trigger] head[i]).len() == 2 by {
            assert(head[i] == lists[i]);
        }
        lemma_product_of_pairs(head);
        lemma_pow2_unfold(lists.len());
    }
}

/// Where every list holds exactly one item that `hit` accepts at the list's
/// position, the product holds exactly one row that `hit` accepts throughout.
/// The lemma hands back the index of that row.
pub proof fn lemma_product_one_hit<T>(lists: Seq<Seq<T>>, hit: spec_fn(int, T) -> bool) -> (k: int)
    requires
        forall|i: int| 0 <= i < lists.len() ==> one_hit(#[trigger] lists[i], i, hit),
    ensures
        0 <= k < spec_product(lists).len(),
        row_hits(spec_product(lists)[k], hit),
        forall|k2: int|
            0 <= k2 < spec_product(lists).len() && row_hits(
                #[trigger] spec_product(lists)[k2],
                hit,
            ) ==> k2 == k,
    decreases lists.len(),
{
    if lists.len() == 0 {
        0
    } else {
        let head = lists.drop_last();
        let init = spec_product(head);
        let last = lists.last();
        let m = last.len() as int;
        let axis = lists.len() - 1;
        assert forall|i: int| 0 <= i < head.len() implies one_hit(#[trigger] head[i], i, hit) by {
            assert(head[i] == lists[i]);
        }
        let kp = lemma_product_one_hit(head, hit);
        lemma_product_row_len(head);
        lemma_product_row_len(lists);
        assert(one_hit(lists[axis], axis, hit));
        let j = choose|j: int|
            0 <= j < last.len() && hit(axis, #[trigger] last[j]) && forall|j2: int|
                0 <= j2 < last.len() && hit(axis, #[trigger] last[j2]) ==> j2 == j;
        let k = kp * m + j;
        assert(0 <= k < init.len() * m) by (nonlinear_arith)
            requires
                0 <= kp < init.len(),
                0 <= j < m,
                k == kp * m + j,
        ;
        lemma_fundamental_div_mod_converse(k, m, kp, j);
        let row = spec_product(lists)[k];
        assert(row == init[kp].push(last[j]));
        assert forall|i: int| 0 <= i < row.len() implies hit(i, #[trigger] row[i]) by {
            if i < axis {
                assert(row[i] == init[kp][i]);
            }
        }
        assert forall|k2: int|
            0 <= k2 < spec_product(lists).len() && row_hits(
                #[trigger] spec_product(lists)[k2],
                hit,
            ) implies k2 == k by {
            lemma_index_in_range(k2, init.len() as int, m);
            let row2 = spec_product(lists)[k2];
            let q = k2 / m;
            let r = k2 % m;
            assert(row2 == init[q].push(last[r]));
            assert(row2[axis] == last[r]);
            assert(r == j);
            assert forall|i: int| 0 <= i < init[q].len() implies hit(i, #[trigger] init[q][i]) by {
                assert(row2[i] == init[q][i]);
            }
            assert(row_hits(init[q], hit));
            assert(q == kp);
        }
        k
    }
}

} // verus!
