//! The two-way merge, one step at a time: from the pending record of each
//! input, what is written next and which input is read again.

use vstd::prelude::*;
use crate::record::{key_lt, BedRecord, Rank, RecordView};

verus! {

/// What one step of the merge writes.
#[derive(Clone, Debug, PartialEq, Eq)]
pub enum Row {
    /// The pending record of the first input, as it is.
    First(BedRecord),
    /// The pending record of the second input, as it is.
    Second(BedRecord),
    /// Both pending records, which share their key: one line under that key,
    /// with the sums of their statistics.
    Pooled(BedRecord, BedRecord),
}

/// A `Row` as plain values.
pub enum RowView {
    First(RecordView),
    Second(RecordView),
    Pooled(RecordView, RecordView),
}

impl View for Row {
    type V = RowView;

    open spec fn view(&self) -> RowView {
        match self {
            Row::First(a) => RowView::First(a@),
            Row::Second(b) => RowView::Second(b@),
            Row::Pooled(a, b) => RowView::Pooled(a@, b@),
        }
    }
}

impl DeepView for Row {
    type V = RowView;

    open spec fn deep_view(&self) -> RowView {
        self@
    }
}

/// The outcome of one step of the merge.
#[derive(Clone, Debug, PartialEq, Eq)]
pub enum Step {
    /// Both inputs are exhausted: the merge is over.
    Done,
    /// A row to write. `keep1` and `keep2` hold the pending records that
    /// stay; an input whose side is `None` is read again before the next
    /// step, also where it is exhausted already.
    Emit { row: Row, keep1: Option<BedRecord>, keep2: Option<BedRecord> },
}

/// A `Step` as plain values.
pub enum StepView {
    Done,
    Emit { row: RowView, keep1: Option<RecordView>, keep2: Option<RecordView> },
}

impl View for Step {
    type V = StepView;

    open spec fn view(&self) -> StepView {
        match self {
            Step::Done => StepView::Done,
            Step::Emit { row, keep1, keep2 } => StepView::Emit {
                row: row@,
                keep1: keep1.deep_view(),
                keep2: keep2.deep_view(),
            },
        }
    }
}

/// The step that follows from the two pending records, `None` standing for
/// an exhausted input.
///
/// With a record on each side the lower key is written and only its input
/// read again; equal keys are pooled and both inputs read again. With a
/// record on one side only it is written and both inputs are read again.
pub open spec fn step_of(rec1: Option<RecordView>, rec2: Option<RecordView>) -> StepView {
    match (rec1, rec2) {
        (Some(a), Some(b)) => if a.key == b.key {
            StepView::Emit { row: RowView::Pooled(a, b), keep1: None, keep2: None }
        } else if key_lt(a.key, b.key) {
            StepView::Emit { row: RowView::First(a), keep1: None, keep2: Some(b) }
        } else {
            StepView::Emit { row: RowView::Second(b), keep1: Some(a), keep2: None }
        },
        (Some(a), None) => StepView::Emit { row: RowView::First(a), keep1: None, keep2: None },
        (None, Some(b)) => StepView::Emit { row: RowView::Second(b), keep1: None, keep2: None },
        (None, None) => StepView::Done,
    }
}

/// One step of the merge of two sorted inputs.
///
/// Takes the pending record of each input, `None` for an input that is
/// exhausted, and returns what to write and which records stay pending.
pub fn sync2(rec1: Option<BedRecord>, rec2: Option<BedRecord>) -> (step: Step)
    ensures
        step@ == step_of(rec1.deep_view(), rec2.deep_view()),
{
    match (rec1, rec2) {
        (Some(a), Some(b)) => match a.coords.compare(&b.coords) {
            Rank::Same => Step::Emit { row: Row::Pooled(a, b), keep1: None, keep2: None },
            Rank::Before => Step::Emit { row: Row::First(a), keep1: None, keep2: Some(b) },
            Rank::After => Step::Emit { row: Row::Second(b), keep1: Some(a), keep2: None },
        },
        (Some(a), None) => Step::Emit { row: Row::First(a), keep1: None, keep2: None },
        (None, Some(b)) => Step::Emit { row: Row::Second(b), keep1: None, keep2: None },
        (None, None) => Step::Done,
    }
}

} // verus!
