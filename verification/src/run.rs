//! A whole run of the merge over what the reads of two inputs give: to the
//! end of both, or to the first read that fails.

use vstd::prelude::*;
use crate::error::{BedError, ErrorView};
use crate::merge::{step_of, sync2, Row, RowView, Step, StepView};
use crate::record::{
    key_le,
    key_lt,
    lemma_key_lt_connected,
    lemma_key_lt_irreflexive,
    lemma_key_lt_transitive,
    BedRecord,
    Key,
    RecordView,
};
use crate::tracks::{after, ascending, head, keys, lemma_ascending_tail, merge};

verus! {

/// What one read of an input gave: a record, or the error of the read or of
/// the line.
pub type ReadView = Result<RecordView, ErrorView>;

/// The reads of an input as plain values.
pub open spec fn reads(input: Seq<Result<BedRecord, BedError>>) -> Seq<ReadView> {
    Seq::new(
        input.len(),
        |i: int|
            match input[i] {
                Ok(rec) => Ok(rec@),
                Err(e) => Err(e@),
            },
    )
}

/// An input of which every read gives a record.
pub open spec fn sound(records: Seq<RecordView>) -> Seq<ReadView> {
    Seq::new(records.len(), |i: int| Ok(records[i]))
}

/// What the next read gives of an input of which `s` is still to come: its
/// first record or error, and no record past its end.
pub open spec fn pull(s: Seq<ReadView>) -> Result<Option<RecordView>, ErrorView> {
    if s.len() == 0 {
        Ok(None)
    } else {
        match s[0] {
            Ok(rec) => Ok(Some(rec)),
            Err(e) => Err(e),
        }
    }
}

/// What is still to come of an input after a read.
pub open spec fn left(s: Seq<ReadView>) -> Seq<ReadView> {
    if s.len() == 0 {
        s
    } else {
        s.skip(1)
    }
}

/// The outcome of a run: the rows written, in order, and the error that
/// ended it, if one did.
pub struct Run {
    pub rows: Seq<RowView>,
    pub error: Option<ErrorView>,
}

/// One for a pending record, zero for none.
pub open spec fn pending(rec: Option<RecordView>) -> nat {
    if rec is Some {
        1
    } else {
        0
    }
}

/// The run from two pending records and what is still to come of each
/// input. Each step writes its row; then the first input is read where the
/// step asks for it, then the second; the first read that fails ends the
/// run with its error, and nothing more is written or read.
pub open spec fn run_from(
    rec1: Option<RecordView>,
    rec2: Option<RecordView>,
    a: Seq<ReadView>,
    b: Seq<ReadView>,
) -> Run
    decreases a.len() + b.len() + pending(rec1) + pending(rec2),
{
    match step_of(rec1, rec2) {
        StepView::Done => Run { rows: Seq::empty(), error: None },
        StepView::Emit { row, keep1, keep2 } => {
            let next1 = if keep1 is Some {
                Ok(keep1)
            } else {
                pull(a)
            };
            let a2 = if keep1 is Some {
                a
            } else {
                left(a)
            };
            let next2 = if keep2 is Some {
                Ok(keep2)
            } else {
                pull(b)
            };
            let b2 = if keep2 is Some {
                b
            } else {
                left(b)
            };
            match (next1, next2) {
                (Err(e), _) => Run { rows: seq![row], error: Some(e) },
                (Ok(_), Err(e)) => Run { rows: seq![row], error: Some(e) },
                (Ok(r1), Ok(r2)) => {
                    let rest = run_from(r1, r2, a2, b2);
                    Run { rows: seq![row] + rest.rows, error: rest.error }
                },
            }
        },
    }
}

/// The whole run over two inputs: one read of each before the first step,
/// the first input first, then the steps.
pub open spec fn run(a: Seq<ReadView>, b: Seq<ReadView>) -> Run {
    match (pull(a), pull(b)) {
        (Err(e), _) => Run { rows: Seq::empty(), error: Some(e) },
        (Ok(_), Err(e)) => Run { rows: Seq::empty(), error: Some(e) },
        (Ok(r1), Ok(r2)) => run_from(r1, r2, left(a), left(b)),
    }
}

/// What a read gave, as plain values.
pub open spec fn pulled(got: Result<Option<BedRecord>, BedError>) -> Result<
    Option<RecordView>,
    ErrorView,
> {
    match got {
        Ok(rec) => Ok(rec.deep_view()),
        Err(e) => Err(e@),
    }
}

/// What the read at place `i` of an input gave, and no record past its end.
fn read_at(input: &Vec<Result<BedRecord, BedError>>, i: usize) -> (got: Result<
    Option<BedRecord>,
    BedError,
>)
    requires
        i <= input.len(),
    ensures
        pulled(got) == pull(reads(input@).skip(i as int)),
{
    if i < input.len() {
        assert(reads(input@).skip(i as int)[0] == reads(input@)[i as int]);
        match &input[i] {
            Ok(found) => Ok(Some(found.duplicate())),
            Err(BedError::IO(why)) => Err(BedError::IO(why.clone())),
            Err(BedError::File(path, why)) => Err(BedError::File(path.clone(), why.clone())),
            Err(BedError::Parse(path, line, why)) => Err(
                BedError::Parse(path.clone(), *line, why.clone()),
            ),
        }
    } else {
        Ok(None)
    }
}

/// Runs the merge over what the reads of two inputs gave, held in memory:
/// one read of each, then step after step, reading an input again where a
/// step asks for it, until both are exhausted or a read has failed. Returns
/// the rows written up to there, and the error of the read that failed.
pub fn merge_reads(
    a: &Vec<Result<BedRecord, BedError>>,
    b: &Vec<Result<BedRecord, BedError>>,
) -> (out: (Vec<Row>, Result<(), BedError>))
    ensures
        out.0.deep_view() == run(reads(a@), reads(b@)).rows,
        match out.1 {
            Ok(_) => run(reads(a@), reads(b@)).error is None,
            Err(e) => run(reads(a@), reads(b@)).error == Some(e@),
        },
{
    let ghost all1 = reads(a@);
    let ghost all2 = reads(b@);
    let mut rows: Vec<Row> = Vec::new();
    proof {
        assert(all1.skip(0) =~= all1);
        assert(all2.skip(0) =~= all2);
        assert(rows.deep_view() =~= Seq::<RowView>::empty());
    }
    let mut rec1 = match read_at(a, 0) {
        Ok(rec) => rec,
        Err(e) => {
            return (rows, Err(e));
        },
    };
    let mut rec2 = match read_at(b, 0) {
        Ok(rec) => rec,
        Err(e) => {
            return (rows, Err(e));
        },
    };
    let mut i: usize = if a.len() > 0 {
        1
    } else {
        0
    };
    let mut j: usize = if b.len() > 0 {
        1
    } else {
        0
    };
    proof {
        assert(left(all1) =~= all1.skip(i as int));
        assert(left(all2) =~= all2.skip(j as int));
        assert(rows.deep_view() + run(all1, all2).rows =~= run(all1, all2).rows);
    }
    loop
        invariant
            all1 == reads(a@),
            all2 == reads(b@),
            i <= a.len(),
            j <= b.len(),
            run(all1, all2).rows == rows.deep_view() + run_from(
                rec1.deep_view(),
                rec2.deep_view(),
                all1.skip(i as int),
                all2.skip(j as int),
            ).rows,
            run(all1, all2).error == run_from(
                rec1.deep_view(),
                rec2.deep_view(),
                all1.skip(i as int),
                all2.skip(j as int),
            ).error,
        decreases
                (a.len() - i) + (b.len() - j) + pending(rec1.deep_view()) + pending(
                    rec2.deep_view(),
                ),
    {
        let ghost rest1 = all1.skip(i as int);
        let ghost rest2 = all2.skip(j as int);
        let ghost before = rows.deep_view();
        let ghost here = run_from(rec1.deep_view(), rec2.deep_view(), rest1, rest2);
        match sync2(rec1, rec2) {
            Step::Done => {
                assert(before + here.rows =~= before);
                return (rows, Ok(()));
            },
            Step::Emit { row, keep1, keep2 } => {
                let ghost shown = row@;
                rows.push(row);
                assert(rows.deep_view() =~= before.push(shown));
                assert(before + seq![shown] =~= before.push(shown));
                rec1 = match keep1 {
                    Some(kept) => Some(kept),
                    None => {
                        let got = read_at(a, i);
                        if i < a.len() {
                            assert(rest1.skip(1) =~= all1.skip(i + 1));
                            i = i + 1;
                        }
                        match got {
                            Ok(rec) => rec,
                            Err(e) => {
                                return (rows, Err(e));
                            },
                        }
                    },
                };
                rec2 = match keep2 {
                    Some(kept) => Some(kept),
                    None => {
                        let got = read_at(b, j);
                        if j < b.len() {
                            assert(rest2.skip(1) =~= all2.skip(j + 1));
                            j = j + 1;
                        }
                        match got {
                            Ok(rec) => rec,
                            Err(e) => {
                                return (rows, Err(e));
                            },
                        }
                    },
                };
                proof {
                    let after1 = run_from(
                        rec1.deep_view(),
                        rec2.deep_view(),
                        all1.skip(i as int),
                        all2.skip(j as int),
                    );
                    assert(here.rows == seq![shown] + after1.rows);
                    assert(before + (seq![shown] + after1.rows) =~= before.push(shown)
                        + after1.rows);
                }
            },
        }
    }
}

/// The records at the front of an input whose keys are `k` or come before
/// it: of an input that is sorted ascending, all such records.
pub open spec fn upto(s: Seq<RecordView>, k: Key) -> Seq<RecordView>
    decreases s.len(),
{
    if s.len() > 0 && key_le(s[0].key, k) {
        seq![s[0]] + upto(s.skip(1), k)
    } else {
        Seq::empty()
    }
}

/// A run in which no read fails writes the merge of the two inputs and ends
/// without error.
pub proof fn lemma_run_without_error(x: Seq<RecordView>, y: Seq<RecordView>)
    ensures
        run(sound(x), sound(y)) == (Run { rows: merge(x, y), error: None }),
{
    assert(left(sound(x)) =~= sound(after(x, None)));
    assert(left(sound(y)) =~= sound(after(y, None)));
    lemma_run_from_without_error(x, y);
}

/// As `lemma_run_without_error`, from the first step on.
proof fn lemma_run_from_without_error(x: Seq<RecordView>, y: Seq<RecordView>)
    ensures
        run_from(head(x), head(y), sound(after(x, None)), sound(after(y, None))) == (Run {
            rows: merge(x, y),
            error: None,
        }),
    decreases x.len() + y.len(),
{
    match step_of(head(x), head(y)) {
        StepView::Done => {},
        StepView::Emit { row, keep1, keep2 } => {
            let x2 = after(x, keep1);
            let y2 = after(y, keep2);
            let a = sound(after(x, None));
            let b = sound(after(y, None));
            lemma_run_from_without_error(x2, y2);
            if keep1 is None {
                assert(pull(a) == Ok::<Option<RecordView>, ErrorView>(head(x2)));
                assert(left(a) =~= sound(after(x2, None)));
            } else {
                assert(a =~= sound(after(x2, None)));
            }
            if keep2 is None {
                assert(pull(b) == Ok::<Option<RecordView>, ErrorView>(head(y2)));
                assert(left(b) =~= sound(after(y2, None)));
            } else {
                assert(b =~= sound(after(y2, None)));
            }
        },
    }
}

/// An input whose reads give the records of `x` and then fail with `e`;
/// what `more` holds is never read.
pub open spec fn failing(x: Seq<RecordView>, e: ErrorView, more: Seq<ReadView>) -> Seq<ReadView> {
    sound(x) + seq![Err(e)] + more
}

/// As `lemma_run_stops_at_first_error`, from the first step on, the first
/// input holding a record before its failing read.
proof fn lemma_run_from_stops_at_first_error(
    x: Seq<RecordView>,
    e: ErrorView,
    more: Seq<ReadView>,
    y: Seq<RecordView>,
)
    requires
        x.len() > 0,
        ascending(keys(x)),
        ascending(keys(y)),
    ensures
        run_from(Some(x[0]), head(y), failing(x.skip(1), e, more), sound(after(y, None))) == (Run {
            rows: merge(x, upto(y, x.last().key)),
            error: Some(e),
        }),
    decreases x.len() + y.len(),
{
    let k = x.last().key;
    let a = failing(x.skip(1), e, more);
    let b = sound(after(y, None));
    let u = upto(y, k);
    let x2 = x.skip(1);
    assert(keys(x)[0] == x[0].key && keys(x)[x.len() - 1] == k);
    assert(key_le(x[0].key, k));
    lemma_key_lt_irreflexive(k);
    // what the next read of the first input gives
    if x.len() == 1 {
        assert(a[0] == Err::<RecordView, ErrorView>(e));
    } else {
        assert(a[0] == Ok::<RecordView, ErrorView>(x[1]));
        assert(left(a) =~= failing(x2.skip(1), e, more));
        assert(x2.last() == x.last());
        lemma_ascending_tail(x);
    }
    let got = run_from(Some(x[0]), head(y), a, b);
    let want = Run { rows: merge(x, u), error: Some(e) };
    if y.len() == 0 {
        assert(u =~= Seq::<RecordView>::empty());
        assert(merge(x, u) == seq![RowView::First(x[0])] + merge(x2, u));
        if x.len() > 1 {
            lemma_run_from_stops_at_first_error(x2, e, more, y);
        } else {
            assert(merge(x2, u) =~= Seq::<RowView>::empty());
            assert(seq![RowView::First(x[0])] + merge(x2, u) =~= seq![RowView::First(x[0])]);
        }
        assert(got == want);
    } else {
        let y2 = y.skip(1);
        assert(keys(y)[0] == y[0].key);
        lemma_ascending_tail(y);
        assert(pull(b) == Ok::<Option<RecordView>, ErrorView>(head(y2)));
        assert(left(b) =~= sound(after(y2, None)));
        if y2.len() > 0 {
            assert(keys(y)[1] == y2[0].key);
            assert(key_lt(y[0].key, y2[0].key));
        }
        if x[0].key == y[0].key {
            let row = RowView::Pooled(x[0], y[0]);
            assert(u == seq![y[0]] + upto(y2, k));
            assert(u.skip(1) =~= upto(y2, k));
            assert(merge(x, u) == seq![row] + merge(x2, upto(y2, k)));
            if x.len() == 1 {
                if y2.len() > 0 && key_lt(y2[0].key, k) {
                    lemma_key_lt_transitive(k, y2[0].key, k);
                }
                assert(upto(y2, k) =~= Seq::<RecordView>::empty());
                assert(merge(x2, upto(y2, k)) =~= Seq::<RowView>::empty());
                assert(seq![row] + merge(x2, upto(y2, k)) =~= seq![row]);
            } else {
                lemma_run_from_stops_at_first_error(x2, e, more, y2);
            }
            assert(got == want);
        } else if key_lt(x[0].key, y[0].key) {
            let row = RowView::First(x[0]);
            assert(merge(x, u) == seq![row] + merge(x2, u));
            if x.len() == 1 {
                if key_lt(y[0].key, k) {
                    lemma_key_lt_transitive(k, y[0].key, k);
                }
                assert(u =~= Seq::<RecordView>::empty());
                assert(merge(x2, u) =~= Seq::<RowView>::empty());
                assert(seq![row] + merge(x2, u) =~= seq![row]);
            } else {
                lemma_run_from_stops_at_first_error(x2, e, more, y);
            }
            assert(got == want);
        } else {
            let row = RowView::Second(y[0]);
            lemma_key_lt_connected(x[0].key, y[0].key);
            if x[0].key != k {
                lemma_key_lt_transitive(y[0].key, x[0].key, k);
            }
            assert(u == seq![y[0]] + upto(y2, k));
            assert(u.skip(1) =~= upto(y2, k));
            assert(merge(x, u) == seq![row] + merge(x, upto(y2, k)));
            lemma_run_from_stops_at_first_error(x, e, more, y2);
            assert(got == want);
        }
    }
}

/// A run stops at the first read that fails. Where the first input gives
/// the records of `x` and then the error `e`, the second input gives the
/// records of `y` without error, and both are sorted ascending with no key
/// twice, the run ends with `e`, and what it has written is the merge of
/// `x` with the records of `y` up to the last key of `x`: nothing of the
/// first input from the failing read on, and nothing of the second input
/// past that key. Where the very first read fails, nothing is written.
pub proof fn lemma_run_stops_at_first_error(
    x: Seq<RecordView>,
    e: ErrorView,
    more: Seq<ReadView>,
    y: Seq<RecordView>,
)
    requires
        ascending(keys(x)),
        ascending(keys(y)),
    ensures
        run(failing(x, e, more), sound(y)) == (Run {
            rows: if x.len() == 0 {
                Seq::empty()
            } else {
                merge(x, upto(y, x.last().key))
            },
            error: Some(e),
        }),
{
    let a = failing(x, e, more);
    if x.len() == 0 {
        assert(a[0] == Err::<RecordView, ErrorView>(e));
    } else {
        assert(a[0] == Ok::<RecordView, ErrorView>(x[0]));
        assert(left(a) =~= failing(x.skip(1), e, more));
        assert(left(sound(y)) =~= sound(after(y, None)));
        lemma_run_from_stops_at_first_error(x, e, more, y);
    }
}

/// As `lemma_run_stops_at_error_of_second`, from the first step on, the
/// second input holding a record before its failing read.
proof fn lemma_run_from_stops_at_error_of_second(
    x: Seq<RecordView>,
    y: Seq<RecordView>,
    e: ErrorView,
    more: Seq<ReadView>,
)
    requires
        y.len() > 0,
        ascending(keys(x)),
        ascending(keys(y)),
    ensures
        run_from(head(x), Some(y[0]), sound(after(x, None)), failing(y.skip(1), e, more)) == (Run {
            rows: merge(upto(x, y.last().key), y),
            error: Some(e),
        }),
    decreases x.len() + y.len(),
{
    let k = y.last().key;
    let a = sound(after(x, None));
    let b = failing(y.skip(1), e, more);
    let u = upto(x, k);
    let y2 = y.skip(1);
    assert(keys(y)[0] == y[0].key && keys(y)[y.len() - 1] == k);
    assert(key_le(y[0].key, k));
    lemma_key_lt_irreflexive(k);
    // what the next read of the second input gives
    if y.len() == 1 {
        assert(b[0] == Err::<RecordView, ErrorView>(e));
    } else {
        assert(b[0] == Ok::<RecordView, ErrorView>(y[1]));
        assert(left(b) =~= failing(y2.skip(1), e, more));
        assert(y2.last() == y.last());
        lemma_ascending_tail(y);
    }
    let got = run_from(head(x), Some(y[0]), a, b);
    let want = Run { rows: merge(u, y), error: Some(e) };
    if x.len() == 0 {
        let row = RowView::Second(y[0]);
        assert(u =~= Seq::<RecordView>::empty());
        assert(merge(u, y) == seq![row] + merge(u, y2));
        if y.len() > 1 {
            lemma_run_from_stops_at_error_of_second(x, y2, e, more);
        } else {
            assert(merge(u, y2) =~= Seq::<RowView>::empty());
            assert(seq![row] + merge(u, y2) =~= seq![row]);
        }
        assert(got == want);
    } else {
        let x2 = x.skip(1);
        assert(keys(x)[0] == x[0].key);
        lemma_ascending_tail(x);
        assert(pull(a) == Ok::<Option<RecordView>, ErrorView>(head(x2)));
        assert(left(a) =~= sound(after(x2, None)));
        if x2.len() > 0 {
            assert(keys(x)[1] == x2[0].key);
            assert(key_lt(x[0].key, x2[0].key));
        }
        if x[0].key == y[0].key {
            let row = RowView::Pooled(x[0], y[0]);
            assert(u == seq![x[0]] + upto(x2, k));
            assert(u.skip(1) =~= upto(x2, k));
            assert(merge(u, y) == seq![row] + merge(upto(x2, k), y2));
            if y.len() == 1 {
                if x2.len() > 0 && key_lt(x2[0].key, k) {
                    lemma_key_lt_transitive(k, x2[0].key, k);
                }
                assert(upto(x2, k) =~= Seq::<RecordView>::empty());
                assert(merge(upto(x2, k), y2) =~= Seq::<RowView>::empty());
                assert(seq![row] + merge(upto(x2, k), y2) =~= seq![row]);
            } else {
                lemma_run_from_stops_at_error_of_second(x2, y2, e, more);
            }
            assert(got == want);
        } else if key_lt(x[0].key, y[0].key) {
            let row = RowView::First(x[0]);
            if y[0].key != k {
                lemma_key_lt_transitive(x[0].key, y[0].key, k);
            }
            assert(u == seq![x[0]] + upto(x2, k));
            assert(u.skip(1) =~= upto(x2, k));
            assert(merge(u, y) == seq![row] + merge(upto(x2, k), y));
            lemma_run_from_stops_at_error_of_second(x2, y, e, more);
            assert(got == want);
        } else {
            let row = RowView::Second(y[0]);
            lemma_key_lt_connected(x[0].key, y[0].key);
            assert(merge(u, y) == seq![row] + merge(u, y2));
            if y.len() == 1 {
                if key_lt(x[0].key, k) {
                    lemma_key_lt_transitive(k, x[0].key, k);
                }
                assert(u =~= Seq::<RecordView>::empty());
                assert(merge(u, y2) =~= Seq::<RowView>::empty());
                assert(seq![row] + merge(u, y2) =~= seq![row]);
            } else {
                lemma_run_from_stops_at_error_of_second(x, y2, e, more);
            }
            assert(got == want);
        }
    }
}

/// As `lemma_run_stops_at_first_error`, with the failing read in the second
/// input: the run ends with `e`, and what it has written is the merge of
/// `y` with the records of `x` up to the last key of `y`. Where the first
/// read of the second input fails, nothing is written.
pub proof fn lemma_run_stops_at_error_of_second(
    x: Seq<RecordView>,
    y: Seq<RecordView>,
    e: ErrorView,
    more: Seq<ReadView>,
)
    requires
        ascending(keys(x)),
        ascending(keys(y)),
    ensures
        run(sound(x), failing(y, e, more)) == (Run {
            rows: if y.len() == 0 {
                Seq::empty()
            } else {
                merge(upto(x, y.last().key), y)
            },
            error: Some(e),
        }),
{
    let b = failing(y, e, more);
    if y.len() == 0 {
        assert(b[0] == Err::<RecordView, ErrorView>(e));
    } else {
        assert(b[0] == Ok::<RecordView, ErrorView>(y[0]));
        assert(left(b) =~= failing(y.skip(1), e, more));
        assert(left(sound(x)) =~= sound(after(x, None)));
        lemma_run_from_stops_at_error_of_second(x, y, e, more);
    }
}

} // verus!
