//! Ordered frequency rows: the mathematical model of a distribution.
//!
//! A row is a sequence of `(key, count)` entries. The order of the entries is part of
//! the model, because a draw is resolved by walking the entries front to back.

use vstd::prelude::*;

verus! {

/// The sum of the counts of the first `n` entries of `row`.
pub open spec fn prefix_total<K>(row: Seq<(K, nat)>, n: int) -> nat
    decreases n,
{
    if n <= 0 || n > row.len() {
        0
    } else {
        prefix_total(row, n - 1) + row[n - 1].1
    }
}

/// The sum of all counts of `row`.
pub open spec fn row_total<K>(row: Seq<(K, nat)>) -> nat {
    prefix_total(row, row.len() as int)
}

/// The keys of `row`, in order.
pub open spec fn row_keys<K>(row: Seq<(K, nat)>) -> Seq<K> {
    Seq::new(row.len(), |i: int| row[i].0)
}

/// How often `key` was counted in `row`; zero for a key without an entry.
pub open spec fn row_count<K>(row: Seq<(K, nat)>, key: K) -> nat
    decreases row.len(),
{
    if row.len() == 0 {
        0
    } else if row.last().0 == key {
        row_count(row.drop_last(), key) + row.last().1
    } else {
        row_count(row.drop_last(), key)
    }
}

/// A row that can be sampled: no key has two entries, and the total fits a machine word.
pub open spec fn valid_row<K>(row: Seq<(K, nat)>) -> bool {
    &&& row_keys(row).no_duplicates()
    &&& row_total(row) <= usize::MAX
}

/// Entry `j` is the one that the number `draw` selects: the counts before it sum to at
/// most `draw`, and together with its own count they exceed `draw`.
pub open spec fn picks<K>(row: Seq<(K, nat)>, draw: int, j: int) -> bool {
    &&& 0 <= j < row.len()
    &&& prefix_total(row, j) <= draw < prefix_total(row, j + 1)
}

/// `row` after one more observation of `key`: the count of its entry grows by one, or a
/// new entry with count one is appended.
pub open spec fn row_bump<K>(row: Seq<(K, nat)>, key: K) -> Seq<(K, nat)> {
    if row_keys(row).contains(key) {
        let i = row_keys(row).index_of(key);
        row.update(i, (key, row[i].1 + 1))
    } else {
        row.push((key, 1nat))
    }
}

/// Prefix sums never shrink.
pub proof fn lemma_prefix_total_monotonic<K>(row: Seq<(K, nat)>, i: int, j: int)
    requires
        0 <= i <= j <= row.len(),
    ensures
        prefix_total(row, i) <= prefix_total(row, j),
    decreases j - i,
{
    if i < j {
        lemma_prefix_total_monotonic(row, i, j - 1);
    }
}

/// A prefix sum depends only on the entries it covers.
pub proof fn lemma_prefix_total_agrees<K, L>(a: Seq<(K, nat)>, b: Seq<(L, nat)>, n: int)
    requires
        0 <= n <= a.len(),
        n <= b.len(),
        forall|i: int| 0 <= i < n ==> a[i].1 == b[i].1,
    ensures
        prefix_total(a, n) == prefix_total(b, n),
    decreases n,
{
    if n > 0 {
        lemma_prefix_total_agrees(a, b, n - 1);
    }
}

/// At most one entry is selected by a draw.
pub proof fn lemma_picks_unique<K>(row: Seq<(K, nat)>, draw: int, i: int, j: int)
    requires
        picks(row, draw, i),
        picks(row, draw, j),
    ensures
        i == j,
{
    if i < j {
        lemma_prefix_total_monotonic(row, i + 1, j);
    } else if j < i {
        lemma_prefix_total_monotonic(row, j + 1, i);
    }
}

/// Every draw below the total selects some entry.
pub proof fn lemma_picks_exists<K>(row: Seq<(K, nat)>, draw: int) -> (j: int)
    requires
        0 <= draw < row_total(row),
    ensures
        picks(row, draw, j),
{
    lemma_picks_below(row, draw, row.len() as int)
}

proof fn lemma_picks_below<K>(row: Seq<(K, nat)>, draw: int, n: int) -> (j: int)
    requires
        0 <= n <= row.len(),
        0 <= draw < prefix_total(row, n),
    ensures
        picks(row, draw, j),
        j < n,
    decreases n,
{
    if prefix_total(row, n - 1) <= draw {
        n - 1
    } else {
        lemma_picks_below(row, draw, n - 1)
    }
}

/// The draws that select entry `j` are the `row[j].1` consecutive numbers that start at
/// the sum of the counts before it. Under a uniform draw below the total, an entry is
/// therefore selected with probability `count / total`.
pub proof fn lemma_picks_interval<K>(row: Seq<(K, nat)>, draw: int, j: int)
    requires
        0 <= j < row.len(),
    ensures
        picks(row, draw, j) <==> prefix_total(row, j) <= draw < prefix_total(row, j) + row[j].1,
        prefix_total(row, j) + row[j].1 <= row_total(row),
{
    lemma_prefix_total_monotonic(row, j + 1, row.len() as int);
}

/// The count of a key in a row without duplicate keys is the count of its entry.
pub proof fn lemma_row_count_at<K>(row: Seq<(K, nat)>, j: int)
    requires
        row_keys(row).no_duplicates(),
        0 <= j < row.len(),
    ensures
        row_count(row, row[j].0) == row[j].1,
    decreases row.len(),
{
    let n = row.len() - 1;
    let rest = row.drop_last();
    assert(row_keys(row)[n] == row[n].0);
    assert(row_keys(row)[j] == row[j].0);
    if j == n {
        assert forall|i: int| 0 <= i < rest.len() implies rest[i].0 != row[j].0 by {
            assert(row_keys(row)[i] == row[i].0);
        }
        lemma_row_count_absent(rest, row[j].0);
    } else {
        assert(row_keys(rest) =~= row_keys(row).drop_last());
        lemma_row_count_at(rest, j);
    }
}

/// A key without an entry has count zero.
pub proof fn lemma_row_count_absent<K>(row: Seq<(K, nat)>, key: K)
    requires
        forall|i: int| 0 <= i < row.len() ==> row[i].0 != key,
    ensures
        row_count(row, key) == 0,
    decreases row.len(),
{
    if row.len() > 0 {
        lemma_row_count_absent(row.drop_last(), key);
    }
}

/// What `row_bump` does to the keys: nothing if the key has an entry, else it is appended.
pub proof fn lemma_bump_keys<K>(row: Seq<(K, nat)>, key: K)
    ensures
        row_keys(row).contains(key) ==> row_keys(row_bump(row, key)) == row_keys(row),
        !row_keys(row).contains(key) ==> row_keys(row_bump(row, key)) == row_keys(row).push(key),
        row_keys(row).no_duplicates() ==> row_keys(row_bump(row, key)).no_duplicates(),
{
    if row_keys(row).contains(key) {
        let i = row_keys(row).index_of(key);
        assert(row_keys(row)[i] == key);
        assert(row_keys(row_bump(row, key)) =~= row_keys(row));
    } else {
        assert(row_keys(row_bump(row, key)) =~= row_keys(row).push(key));
    }
}

/// Changing the count of entry `i` by one changes every prefix sum that covers it by one.
proof fn lemma_prefix_total_update<K>(row: Seq<(K, nat)>, i: int, key: K, n: int)
    requires
        0 <= i < row.len(),
        0 <= n <= row.len(),
    ensures
        prefix_total(row.update(i, (key, row[i].1 + 1)), n) == prefix_total(row, n) + if i < n {
            1nat
        } else {
            0nat
        },
    decreases n,
{
    if n > 0 {
        lemma_prefix_total_update(row, i, key, n - 1);
    }
}

/// Recording adds one to the total.
pub proof fn lemma_bump_total<K>(row: Seq<(K, nat)>, key: K)
    ensures
        row_total(row_bump(row, key)) == row_total(row) + 1,
{
    if row_keys(row).contains(key) {
        let i = row_keys(row).index_of(key);
        lemma_prefix_total_update(row, i, key, row.len() as int);
    } else {
        lemma_prefix_total_agrees(row, row.push((key, 1nat)), row.len() as int);
    }
}

/// Recording keeps a row valid, as long as the total can still grow.
pub proof fn lemma_bump_valid<K>(row: Seq<(K, nat)>, key: K)
    requires
        valid_row(row),
        row_total(row) < usize::MAX,
    ensures
        valid_row(row_bump(row, key)),
        row_total(row_bump(row, key)) == row_total(row) + 1,
{
    lemma_bump_total(row, key);
    lemma_bump_keys(row, key);
}

/// Recording `key` adds one to the count of `key` and leaves every other count as it was.
pub proof fn lemma_bump_count<K>(row: Seq<(K, nat)>, key: K, other: K)
    requires
        row_keys(row).no_duplicates(),
    ensures
        row_count(row_bump(row, key), other) == row_count(row, other) + if other == key {
            1nat
        } else {
            0nat
        },
{
    let after = row_bump(row, key);
    lemma_bump_keys(row, key);
    if row_keys(row).contains(key) {
        let i = row_keys(row).index_of(key);
        if other == key {
            lemma_row_count_at(row, i);
            lemma_row_count_at(after, i);
        } else {
            lemma_row_count_same(row, after, other);
        }
    } else {
        assert(after.drop_last() =~= row);
    }
}

/// Two rows with the same keys, which agree on the entries of `key`, count `key` alike.
proof fn lemma_row_count_same<K>(a: Seq<(K, nat)>, b: Seq<(K, nat)>, key: K)
    requires
        a.len() == b.len(),
        forall|i: int| 0 <= i < a.len() ==> a[i].0 == b[i].0,
        forall|i: int| 0 <= i < a.len() && a[i].0 == key ==> a[i].1 == b[i].1,
    ensures
        row_count(a, key) == row_count(b, key),
    decreases a.len(),
{
    if a.len() > 0 {
        lemma_row_count_same(a.drop_last(), b.drop_last(), key);
    }
}

} // verus!
