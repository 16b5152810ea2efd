//! What the steps of the merge make of two whole tracks, and what holds of
//! the result.

use vstd::prelude::*;
use crate::merge::{step_of, sync2, Row, RowView, Step, StepView};
use crate::record::{
    BedRecord,
    key_le,
    key_lt,
    lemma_key_lt_connected,
    lemma_key_lt_irreflexive,
    lemma_key_lt_transitive,
    Key,
    RecordView,
};

verus! {

/// The pending record of an input of which `s` is still to come.
pub open spec fn head(s: Seq<RecordView>) -> Option<RecordView> {
    if s.len() > 0 {
        Some(s[0])
    } else {
        None
    }
}

/// What is still to come of an input after a step that left `keep` pending
/// on its side: the same where a record was kept, else the input without its
/// first record. Reading an exhausted input again leaves it exhausted.
pub open spec fn after(s: Seq<RecordView>, keep: Option<RecordView>) -> Seq<RecordView> {
    if keep is Some || s.len() == 0 {
        s
    } else {
        s.skip(1)
    }
}

/// The rows that the merge writes for two whole inputs: the row of each
/// step, from the first step to the one that finds both inputs exhausted.
pub open spec fn merge(a: Seq<RecordView>, b: Seq<RecordView>) -> Seq<RowView>
    decreases a.len() + b.len(),
{
    match step_of(head(a), head(b)) {
        StepView::Done => Seq::empty(),
        StepView::Emit { row, keep1, keep2 } => seq![row] + merge(after(a, keep1), after(b, keep2)),
    }
}

/// The key under which a row is written.
pub open spec fn row_key(row: RowView) -> Key {
    match row {
        RowView::First(a) => a.key,
        RowView::Second(b) => b.key,
        RowView::Pooled(a, _) => a.key,
    }
}

/// The keys of the records of an input, in order.
pub open spec fn keys(s: Seq<RecordView>) -> Seq<Key> {
    Seq::new(s.len(), |i: int| s[i].key)
}

/// The keys of the rows of an output, in order.
pub open spec fn row_keys(rows: Seq<RowView>) -> Seq<Key> {
    Seq::new(rows.len(), |i: int| row_key(rows[i]))
}

/// Sorted ascending with no key twice.
pub open spec fn ascending(k: Seq<Key>) -> bool {
    forall|i: int, j: int| 0 <= i < j < k.len() ==> key_lt(#[trigger] k[i], #[trigger] k[j])
}

/// Sorted ascending, a key perhaps several times in a row.
pub open spec fn non_descending(k: Seq<Key>) -> bool {
    forall|i: int, j: int| 0 <= i < j < k.len() ==> key_le(#[trigger] k[i], #[trigger] k[j])
}

/// `key_lt` where `strict`, else `key_le`.
pub open spec fn precedes(strict: bool, x: Key, y: Key) -> bool {
    if strict {
        key_lt(x, y)
    } else {
        key_le(x, y)
    }
}

/// `ascending` where `strict`, else `non_descending`.
pub open spec fn ordered(strict: bool, k: Seq<Key>) -> bool {
    if strict {
        ascending(k)
    } else {
        non_descending(k)
    }
}

/// A key that comes before another comes before all that the other
/// precedes.
proof fn lemma_lt_then_precedes(strict: bool, x: Key, y: Key, z: Key)
    requires
        key_lt(x, y),
        precedes(strict, y, z),
    ensures
        key_lt(x, z),
{
    if y != z {
        lemma_key_lt_transitive(x, y, z);
    }
}

/// A key that precedes every record of both inputs precedes every row of
/// their merge.
proof fn lemma_merge_bounded_below(strict: bool, a: Seq<RecordView>, b: Seq<RecordView>, k: Key)
    requires
        forall|i: int| 0 <= i < a.len() ==> precedes(strict, k, #[trigger] a[i].key),
        forall|j: int| 0 <= j < b.len() ==> precedes(strict, k, #[trigger] b[j].key),
    ensures
        forall|n: int|
            0 <= n < merge(a, b).len() ==> precedes(strict, k, row_key(#[trigger] merge(a, b)[n])),
    decreases a.len() + b.len(),
{
    match step_of(head(a), head(b)) {
        StepView::Done => {},
        StepView::Emit { row, keep1, keep2 } => {
            let a2 = after(a, keep1);
            let b2 = after(b, keep2);
            assert forall|i: int| 0 <= i < a2.len() implies precedes(
                strict,
                k,
                #[trigger] a2[i].key,
            ) by {
                if keep1 is None {
                    assert(a2[i] == a[i + 1]);
                }
            }
            assert forall|j: int| 0 <= j < b2.len() implies precedes(
                strict,
                k,
                #[trigger] b2[j].key,
            ) by {
                if keep2 is None {
                    assert(b2[j] == b[j + 1]);
                }
            }
            lemma_merge_bounded_below(strict, a2, b2, k);
            let rest = merge(a2, b2);
            assert forall|n: int| 0 <= n < merge(a, b).len() implies precedes(
                strict,
                k,
                row_key(#[trigger] merge(a, b)[n]),
            ) by {
                if n == 0 {
                    if a.len() > 0 {
                        assert(precedes(strict, k, a[0].key));
                    }
                    if b.len() > 0 {
                        assert(precedes(strict, k, b[0].key));
                    }
                } else {
                    assert(merge(a, b)[n] == rest[n - 1]);
                }
            }
        },
    }
}

/// The merge of two inputs that are in order is in order: strictly where
/// both inputs are, else with equal keys next to each other.
proof fn lemma_merge_ordered(strict: bool, a: Seq<RecordView>, b: Seq<RecordView>)
    requires
        ordered(strict, keys(a)),
        ordered(strict, keys(b)),
    ensures
        ordered(strict, row_keys(merge(a, b))),
    decreases a.len() + b.len(),
{
    match step_of(head(a), head(b)) {
        StepView::Done => {},
        StepView::Emit { row, keep1, keep2 } => {
            let a2 = after(a, keep1);
            let b2 = after(b, keep2);
            let k = row_key(row);
            assert(ordered(strict, keys(a2))) by {
                assert forall|i: int, j: int| 0 <= i < j < a2.len() implies precedes(
                    strict,
                    #[trigger] keys(a2)[i],
                    #[trigger] keys(a2)[j],
                ) by {
                    if keep1 is None {
                        assert(keys(a2)[i] == keys(a)[i + 1]);
                        assert(keys(a2)[j] == keys(a)[j + 1]);
                    }
                }
            }
            assert(ordered(strict, keys(b2))) by {
                assert forall|i: int, j: int| 0 <= i < j < b2.len() implies precedes(
                    strict,
                    #[trigger] keys(b2)[i],
                    #[trigger] keys(b2)[j],
                ) by {
                    if keep2 is None {
                        assert(keys(b2)[i] == keys(b)[i + 1]);
                        assert(keys(b2)[j] == keys(b)[j + 1]);
                    }
                }
            }
            lemma_merge_ordered(strict, a2, b2);
            assert forall|i: int| 0 <= i < a2.len() implies precedes(
                strict,
                k,
                #[trigger] a2[i].key,
            ) by {
                if keep1 is None {
                    // the row holds the first record of `a`, or one with its key
                    assert(a2[i].key == keys(a)[i + 1]);
                    assert(keys(a)[0] == a[0].key);
                    assert(precedes(strict, keys(a)[0], keys(a)[i + 1]));
                } else {
                    // the row holds the first record of `b`, which comes before `a[0]`
                    assert(a2[i].key == keys(a)[i]);
                    assert(keys(a)[0] == a[0].key);
                    lemma_key_lt_connected(a[0].key, b[0].key);
                    if i > 0 {
                        assert(precedes(strict, keys(a)[0], keys(a)[i]));
                        lemma_lt_then_precedes(strict, k, a[0].key, a2[i].key);
                    }
                }
            }
            assert forall|j: int| 0 <= j < b2.len() implies precedes(
                strict,
                k,
                #[trigger] b2[j].key,
            ) by {
                if keep2 is None {
                    assert(b2[j].key == keys(b)[j + 1]);
                    assert(keys(b)[0] == b[0].key);
                    assert(precedes(strict, keys(b)[0], keys(b)[j + 1]));
                } else {
                    assert(b2[j].key == keys(b)[j]);
                    assert(keys(b)[0] == b[0].key);
                    if j > 0 {
                        assert(precedes(strict, keys(b)[0], keys(b)[j]));
                        lemma_lt_then_precedes(strict, k, b[0].key, b2[j].key);
                    }
                }
            }
            lemma_merge_bounded_below(strict, a2, b2, k);
            let rest = merge(a2, b2);
            let out = row_keys(merge(a, b));
            assert forall|i: int, j: int| 0 <= i < j < out.len() implies precedes(
                strict,
                #[trigger] out[i],
                #[trigger] out[j],
            ) by {
                assert(merge(a, b)[j] == rest[j - 1]);
                assert(out[j] == row_keys(rest)[j - 1]);
                if i == 0 {
                    assert(out[0] == k);
                } else {
                    assert(merge(a, b)[i] == rest[i - 1]);
                    assert(out[i] == row_keys(rest)[i - 1]);
                }
            }
        },
    }
}

/// Two inputs that are each sorted ascending with no key twice give an
/// output that is sorted ascending with no key twice.
pub proof fn lemma_merge_ascending(a: Seq<RecordView>, b: Seq<RecordView>)
    requires
        ascending(keys(a)),
        ascending(keys(b)),
    ensures
        ascending(row_keys(merge(a, b))),
{
    lemma_merge_ordered(true, a, b);
}

/// Two inputs that are each sorted ascending, a key perhaps several times in
/// a row, give an output that is sorted in the same way.
pub proof fn lemma_merge_non_descending(a: Seq<RecordView>, b: Seq<RecordView>)
    requires
        non_descending(keys(a)),
        non_descending(keys(b)),
    ensures
        non_descending(row_keys(merge(a, b))),
{
    lemma_merge_ordered(false, a, b);
}

/// A row is written for every record of the first input: the record as it
/// is, or pooled with a record of the second input.
pub open spec fn holds_first(rows: Seq<RowView>, r: RecordView) -> bool {
    exists|n: int|
        0 <= n < rows.len() && match #[trigger] rows[n] {
            RowView::First(x) => x == r,
            RowView::Pooled(x, _) => x == r,
            RowView::Second(_) => false,
        }
}

/// As `holds_first`, for a record of the second input.
pub open spec fn holds_second(rows: Seq<RowView>, r: RecordView) -> bool {
    exists|n: int|
        0 <= n < rows.len() && match #[trigger] rows[n] {
            RowView::Second(y) => y == r,
            RowView::Pooled(_, y) => y == r,
            RowView::First(_) => false,
        }
}

/// True where a row is made of records of the two inputs: one record as it
/// is, or one of each with the same key.
pub open spec fn row_from(row: RowView, a: Seq<RecordView>, b: Seq<RecordView>) -> bool {
    match row {
        RowView::First(x) => a.contains(x),
        RowView::Second(y) => b.contains(y),
        RowView::Pooled(x, y) => a.contains(x) && b.contains(y) && x.key == y.key,
    }
}

/// Every row of a merge is made of records of its two inputs.
pub proof fn lemma_merge_rows_from_inputs(a: Seq<RecordView>, b: Seq<RecordView>)
    ensures
        forall|n: int| 0 <= n < merge(a, b).len() ==> row_from(#[trigger] merge(a, b)[n], a, b),
    decreases a.len() + b.len(),
{
    match step_of(head(a), head(b)) {
        StepView::Done => {},
        StepView::Emit { row, keep1, keep2 } => {
            let a2 = after(a, keep1);
            let b2 = after(b, keep2);
            let rest = merge(a2, b2);
            lemma_merge_rows_from_inputs(a2, b2);
            assert forall|x: RecordView| a2.contains(x) implies a.contains(x) by {
                let i = choose|i: int| 0 <= i < a2.len() && a2[i] == x;
                if keep1 is None {
                    assert(a[i + 1] == x);
                }
            }
            assert forall|y: RecordView| b2.contains(y) implies b.contains(y) by {
                let j = choose|j: int| 0 <= j < b2.len() && b2[j] == y;
                if keep2 is None {
                    assert(b[j + 1] == y);
                }
            }
            assert forall|n: int| 0 <= n < merge(a, b).len() implies row_from(
                #[trigger] merge(a, b)[n],
                a,
                b,
            ) by {
                if n == 0 {
                    if a.len() > 0 {
                        assert(a.contains(a[0]));
                    }
                    if b.len() > 0 {
                        assert(b.contains(b[0]));
                    }
                } else {
                    assert(merge(a, b)[n] == rest[n - 1]);
                    assert(row_from(rest[n - 1], a2, b2));
                }
            }
        },
    }
}

/// Every record of either input is written: as it is, or pooled.
pub proof fn lemma_merge_holds_inputs(a: Seq<RecordView>, b: Seq<RecordView>)
    ensures
        forall|i: int| 0 <= i < a.len() ==> holds_first(merge(a, b), #[trigger] a[i]),
        forall|j: int| 0 <= j < b.len() ==> holds_second(merge(a, b), #[trigger] b[j]),
    decreases a.len() + b.len(),
{
    match step_of(head(a), head(b)) {
        StepView::Done => {},
        StepView::Emit { row, keep1, keep2 } => {
            let a2 = after(a, keep1);
            let b2 = after(b, keep2);
            let rest = merge(a2, b2);
            let all = merge(a, b);
            lemma_merge_holds_inputs(a2, b2);
            assert(all[0] == row);
            assert forall|i: int| 0 <= i < a.len() implies holds_first(all, #[trigger] a[i]) by {
                if keep1 is None && i == 0 {
                    assert(match all[0] {
                        RowView::First(x) => x == a[0],
                        RowView::Pooled(x, _) => x == a[0],
                        RowView::Second(_) => false,
                    });
                } else {
                    let i2 = if keep1 is None {
                        i - 1
                    } else {
                        i
                    };
                    assert(a2[i2] == a[i]);
                    assert(holds_first(rest, a2[i2]));
                    let n = choose|n: int|
                        0 <= n < rest.len() && match #[trigger] rest[n] {
                            RowView::First(x) => x == a[i],
                            RowView::Pooled(x, _) => x == a[i],
                            RowView::Second(_) => false,
                        };
                    assert(all[n + 1] == rest[n]);
                }
            }
            assert forall|j: int| 0 <= j < b.len() implies holds_second(all, #[trigger] b[j]) by {
                if keep2 is None && j == 0 {
                    assert(match all[0] {
                        RowView::Second(y) => y == b[0],
                        RowView::Pooled(_, y) => y == b[0],
                        RowView::First(_) => false,
                    });
                } else {
                    let j2 = if keep2 is None {
                        j - 1
                    } else {
                        j
                    };
                    assert(b2[j2] == b[j]);
                    assert(holds_second(rest, b2[j2]));
                    let n = choose|n: int|
                        0 <= n < rest.len() && match #[trigger] rest[n] {
                            RowView::Second(y) => y == b[j],
                            RowView::Pooled(_, y) => y == b[j],
                            RowView::First(_) => false,
                        };
                    assert(all[n + 1] == rest[n]);
                }
            }
        },
    }
}

/// The keys of the output are the keys of the two inputs taken together:
/// none is lost and none is made up.
pub proof fn lemma_merge_keys_are_union(a: Seq<RecordView>, b: Seq<RecordView>)
    ensures
        row_keys(merge(a, b)).to_set() == keys(a).to_set().union(keys(b).to_set()),
{
    let out = row_keys(merge(a, b));
    let both = keys(a).to_set().union(keys(b).to_set());
    lemma_merge_rows_from_inputs(a, b);
    lemma_merge_holds_inputs(a, b);
    assert forall|k: Key| out.to_set().contains(k) implies both.contains(k) by {
        let n = choose|n: int| 0 <= n < out.len() && out[n] == k;
        let row = merge(a, b)[n];
        assert(row_from(row, a, b));
        match row {
            RowView::First(x) => {
                let i = choose|i: int| 0 <= i < a.len() && a[i] == x;
                assert(keys(a)[i] == k);
            },
            RowView::Second(y) => {
                let j = choose|j: int| 0 <= j < b.len() && b[j] == y;
                assert(keys(b)[j] == k);
            },
            RowView::Pooled(x, _) => {
                let i = choose|i: int| 0 <= i < a.len() && a[i] == x;
                assert(keys(a)[i] == k);
            },
        }
    }
    assert forall|k: Key| both.contains(k) implies out.to_set().contains(k) by {
        if keys(a).contains(k) {
            let i = choose|i: int| 0 <= i < keys(a).len() && keys(a)[i] == k;
            assert(holds_first(merge(a, b), a[i]));
            let n = choose|n: int|
                0 <= n < merge(a, b).len() && match #[trigger] merge(a, b)[n] {
                    RowView::First(x) => x == a[i],
                    RowView::Pooled(x, _) => x == a[i],
                    RowView::Second(_) => false,
                };
            assert(out[n] == k);
        } else {
            let j = choose|j: int| 0 <= j < keys(b).len() && keys(b)[j] == k;
            assert(holds_second(merge(a, b), b[j]));
            let n = choose|n: int|
                0 <= n < merge(a, b).len() && match #[trigger] merge(a, b)[n] {
                    RowView::Second(y) => y == b[j],
                    RowView::Pooled(_, y) => y == b[j],
                    RowView::First(_) => false,
                };
            assert(row_from(merge(a, b)[n], a, b));
            assert(out[n] == k);
        }
    }
    assert(out.to_set() =~= both);
}

/// A sequence of keys that is sorted ascending with no key twice has as many
/// keys as the set of them.
pub proof fn lemma_ascending_counts(k: Seq<Key>)
    requires
        ascending(k),
    ensures
        k.no_duplicates(),
        k.to_set().len() == k.len(),
{
    assert forall|i: int, j: int| 0 <= i < k.len() && 0 <= j < k.len() && i != j implies k[i]
        != k[j] by {
        lemma_key_lt_irreflexive(k[i]);
        if i < j {
            assert(key_lt(k[i], k[j]));
        } else {
            assert(key_lt(k[j], k[i]));
        }
    }
    k.unique_seq_to_set();
}

/// Two inputs that are each sorted ascending with no key twice give one row
/// for each key of the two taken together.
pub proof fn lemma_merge_len_is_union(a: Seq<RecordView>, b: Seq<RecordView>)
    requires
        ascending(keys(a)),
        ascending(keys(b)),
    ensures
        merge(a, b).len() == keys(a).to_set().union(keys(b).to_set()).len(),
{
    lemma_merge_ascending(a, b);
    lemma_merge_keys_are_union(a, b);
    lemma_ascending_counts(row_keys(merge(a, b)));
}

/// The tail of a sequence of keys in order is in order.
pub proof fn lemma_ascending_tail(s: Seq<RecordView>)
    requires
        ascending(keys(s)),
        s.len() > 0,
    ensures
        ascending(keys(s.skip(1))),
{
    let t = s.skip(1);
    assert forall|i: int, j: int| 0 <= i < j < keys(t).len() implies key_lt(
        #[trigger] keys(t)[i],
        #[trigger] keys(t)[j],
    ) by {
        assert(keys(t)[i] == keys(s)[i + 1]);
        assert(keys(t)[j] == keys(s)[j + 1]);
    }
}

/// A record of the first input whose key no record of the second input has
/// is written as it is.
pub proof fn lemma_merge_passes_first(a: Seq<RecordView>, b: Seq<RecordView>, i: int)
    requires
        0 <= i < a.len(),
        forall|j: int| 0 <= j < b.len() ==> (#[trigger] b[j]).key != a[i].key,
    ensures
        merge(a, b).contains(RowView::First(a[i])),
    decreases a.len() + b.len(),
{
    match step_of(head(a), head(b)) {
        StepView::Done => {},
        StepView::Emit { row, keep1, keep2 } => {
            let a2 = after(a, keep1);
            let b2 = after(b, keep2);
            let rest = merge(a2, b2);
            let all = merge(a, b);
            assert(all[0] == row);
            if keep1 is None && i == 0 {
                if b.len() > 0 {
                    assert(b[0].key != a[0].key);
                }
                assert(all[0] == RowView::First(a[0]));
            } else {
                let i2 = if keep1 is None {
                    i - 1
                } else {
                    i
                };
                assert(a2[i2] == a[i]);
                assert forall|j: int| 0 <= j < b2.len() implies (#[trigger] b2[j]).key
                    != a2[i2].key by {
                    if keep2 is None {
                        assert(b2[j] == b[j + 1]);
                    }
                }
                lemma_merge_passes_first(a2, b2, i2);
                let n = choose|n: int| 0 <= n < rest.len() && rest[n] == RowView::First(a[i]);
                assert(all[n + 1] == rest[n]);
            }
        },
    }
}

/// A record of the second input whose key no record of the first input has
/// is written as it is.
pub proof fn lemma_merge_passes_second(a: Seq<RecordView>, b: Seq<RecordView>, j: int)
    requires
        0 <= j < b.len(),
        forall|i: int| 0 <= i < a.len() ==> (#[trigger] a[i]).key != b[j].key,
    ensures
        merge(a, b).contains(RowView::Second(b[j])),
    decreases a.len() + b.len(),
{
    match step_of(head(a), head(b)) {
        StepView::Done => {},
        StepView::Emit { row, keep1, keep2 } => {
            let a2 = after(a, keep1);
            let b2 = after(b, keep2);
            let rest = merge(a2, b2);
            let all = merge(a, b);
            assert(all[0] == row);
            if keep2 is None && j == 0 {
                if a.len() > 0 {
                    assert(a[0].key != b[0].key);
                    lemma_key_lt_connected(a[0].key, b[0].key);
                }
                assert(all[0] == RowView::Second(b[0]));
            } else {
                let j2 = if keep2 is None {
                    j - 1
                } else {
                    j
                };
                assert(b2[j2] == b[j]);
                assert forall|i: int| 0 <= i < a2.len() implies (#[trigger] a2[i]).key
                    != b2[j2].key by {
                    if keep1 is None {
                        assert(a2[i] == a[i + 1]);
                    }
                }
                lemma_merge_passes_second(a2, b2, j2);
                let n = choose|n: int| 0 <= n < rest.len() && rest[n] == RowView::Second(b[j]);
                assert(all[n + 1] == rest[n]);
            }
        },
    }
}

/// Of two inputs that are each sorted ascending with no key twice, two
/// records with the same key, one of each input, are written as one pooled
/// row.
pub proof fn lemma_merge_pools(a: Seq<RecordView>, b: Seq<RecordView>, i: int, j: int)
    requires
        ascending(keys(a)),
        ascending(keys(b)),
        0 <= i < a.len(),
        0 <= j < b.len(),
        a[i].key == b[j].key,
    ensures
        merge(a, b).contains(RowView::Pooled(a[i], b[j])),
    decreases a.len() + b.len(),
{
    let all = merge(a, b);
    let x = a[0].key;
    let y = b[0].key;
    assert(keys(a)[0] == x && keys(a)[i] == a[i].key);
    assert(keys(b)[0] == y && keys(b)[j] == b[j].key);
    lemma_key_lt_irreflexive(a[i].key);
    if i > 0 {
        assert(key_lt(x, a[i].key));
    }
    if j > 0 {
        assert(key_lt(y, b[j].key));
    }
    if x == y {
        assert(all[0] == RowView::Pooled(a[0], b[0]));
        if i > 0 || j > 0 {
            assert(i > 0 && j > 0);
            lemma_ascending_tail(a);
            lemma_ascending_tail(b);
            lemma_merge_pools(a.skip(1), b.skip(1), i - 1, j - 1);
            let rest = merge(a.skip(1), b.skip(1));
            let n = choose|n: int| 0 <= n < rest.len() && rest[n] == RowView::Pooled(a[i], b[j]);
            assert(all[n + 1] == rest[n]);
        }
    } else if key_lt(x, y) {
        // the first input is behind: its first record holds no key of the second
        if i == 0 {
            if j > 0 {
                lemma_key_lt_transitive(x, y, b[j].key);
            }
            assert(false);
        }
        lemma_ascending_tail(a);
        lemma_merge_pools(a.skip(1), b, i - 1, j);
        let rest = merge(a.skip(1), b);
        let n = choose|n: int| 0 <= n < rest.len() && rest[n] == RowView::Pooled(a[i], b[j]);
        assert(all[n + 1] == rest[n]);
    } else {
        lemma_key_lt_connected(x, y);
        if j == 0 {
            if i > 0 {
                lemma_key_lt_transitive(y, x, a[i].key);
            }
            assert(false);
        }
        lemma_ascending_tail(b);
        lemma_merge_pools(a, b.skip(1), i, j - 1);
        let rest = merge(a, b.skip(1));
        let n = choose|n: int| 0 <= n < rest.len() && rest[n] == RowView::Pooled(a[i], b[j]);
        assert(all[n + 1] == rest[n]);
    }
}

/// An input merged with itself gives one pooled row for each of its records,
/// in their order, each record pooled with itself: no key is lost and none
/// is made up.
pub proof fn lemma_merge_self(a: Seq<RecordView>)
    ensures
        merge(a, a) == Seq::new(a.len(), |i: int| RowView::Pooled(a[i], a[i])),
    decreases a.len(),
{
    let pooled = Seq::new(a.len(), |i: int| RowView::Pooled(a[i], a[i]));
    if a.len() > 0 {
        let t = a.skip(1);
        lemma_merge_self(t);
        assert(merge(a, a) == seq![RowView::Pooled(a[0], a[0])] + merge(t, t));
        assert(merge(a, a) =~= pooled);
    } else {
        assert(merge(a, a) =~= pooled);
    }
}

/// The record at place `i` of an input, or `None` past its end.
fn record_at(input: &Vec<BedRecord>, i: usize) -> (rec: Option<BedRecord>)
    requires
        i <= input.len(),
    ensures
        rec.deep_view() == head(input.deep_view().skip(i as int)),
{
    if i < input.len() {
        assert(input.deep_view().skip(i as int)[0] == input[i as int]@);
        Some(input[i].duplicate())
    } else {
        None
    }
}

/// Merges two inputs that are held in memory: takes the steps of the merge
/// one after another, reading each input again where a step asks for it, and
/// returns the rows in the order in which they are written.
pub fn merge_records(a: &Vec<BedRecord>, b: &Vec<BedRecord>) -> (rows: Vec<Row>)
    ensures
        rows.deep_view() == merge(a.deep_view(), b.deep_view()),
{
    let ghost all1 = a.deep_view();
    let ghost all2 = b.deep_view();
    let mut rows: Vec<Row> = Vec::new();
    let mut i: usize = 0;
    let mut j: usize = 0;
    let mut rec1 = record_at(a, 0);
    let mut rec2 = record_at(b, 0);
    proof {
        assert(all1.skip(0) =~= all1);
        assert(all2.skip(0) =~= all2);
        assert(rows.deep_view() + merge(all1, all2) =~= merge(all1, all2));
    }
    loop
        invariant
            all1 == a.deep_view(),
            all2 == b.deep_view(),
            0 <= i <= a.len(),
            0 <= j <= b.len(),
            rec1.deep_view() == head(all1.skip(i as int)),
            rec2.deep_view() == head(all2.skip(j as int)),
            merge(all1, all2) == rows.deep_view() + merge(all1.skip(i as int), all2.skip(j as int)),
        decreases (a.len() - i) + (b.len() - j),
    {
        let ghost rest1 = all1.skip(i as int);
        let ghost rest2 = all2.skip(j as int);
        let ghost before = rows.deep_view();
        match sync2(rec1, rec2) {
            Step::Done => {
                assert(before + merge(rest1, rest2) =~= before);
                return rows;
            },
            Step::Emit { row, keep1, keep2 } => {
                let ghost shown = row@;
                let ghost next1 = after(rest1, keep1.deep_view());
                let ghost next2 = after(rest2, keep2.deep_view());
                rows.push(row);
                proof {
                    assert(rows.deep_view() =~= before.push(shown));
                    assert(before + (seq![shown] + merge(next1, next2)) =~= before.push(shown)
                        + merge(next1, next2));
                }
                rec1 = match keep1 {
                    Some(kept) => Some(kept),
                    None => {
                        if i < a.len() {
                            assert(rest1.skip(1) =~= all1.skip(i + 1));
                            i = i + 1;
                        }
                        record_at(a, i)
                    },
                };
                rec2 = match keep2 {
                    Some(kept) => Some(kept),
                    None => {
                        if j < b.len() {
                            assert(rest2.skip(1) =~= all2.skip(j + 1));
                            j = j + 1;
                        }
                        record_at(b, j)
                    },
                };
            },
        }
    }
}

} // verus!
