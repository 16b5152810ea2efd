//! Coordinate keys, their order, and the records that carry them.

use vstd::prelude::*;
use vstd::std_specs::iter::IteratorSpec;
use crate::text::{decimal, decimal_string};

verus! {

/// A coordinate key as plain values: chromosome name, start and end.
pub struct Key {
    pub chrom: Seq<char>,
    pub start: nat,
    pub end: nat,
}

/// How a key stands to another in the order of the tracks.
#[derive(Clone, Copy, Debug, PartialEq, Eq, Structural)]
pub enum Rank {
    Before,
    Same,
    After,
}

/// The coordinates of an interval: the key by which tracks are sorted and
/// joined.
#[derive(Clone, Debug, PartialEq, Eq)]
pub struct BedCoords {
    pub chrom: String,
    pub start: u64,
    pub end: u64,
}

impl View for BedCoords {
    type V = Key;

    open spec fn view(&self) -> Key {
        Key { chrom: self.chrom@, start: self.start as nat, end: self.end as nat }
    }
}

/// One interval of a track with its three statistics.
///
/// Each statistic is a single-precision number, held by its 32-bit pattern:
/// records are compared and moved here, and never computed with.
#[derive(Clone, Debug, PartialEq, Eq)]
pub struct BedRecord {
    pub coords: BedCoords,
    pub ratio: u32,
    pub meth: u32,
    pub cov: u32,
}

/// A `BedRecord` as plain values.
pub struct RecordView {
    pub key: Key,
    pub ratio: u32,
    pub meth: u32,
    pub cov: u32,
}

impl View for BedRecord {
    type V = RecordView;

    open spec fn view(&self) -> RecordView {
        RecordView { key: self.coords@, ratio: self.ratio, meth: self.meth, cov: self.cov }
    }
}

impl DeepView for BedRecord {
    type V = RecordView;

    open spec fn deep_view(&self) -> RecordView {
        self@
    }
}

/// A line whose coordinates have been read and whose three statistics are
/// still the text of their columns.
#[derive(Clone, Debug, PartialEq, Eq)]
pub struct BedLine {
    pub coords: BedCoords,
    pub ratio: String,
    pub meth: String,
    pub cov: String,
}

/// A `BedLine` as plain values.
pub struct LineView {
    pub key: Key,
    pub ratio: Seq<char>,
    pub meth: Seq<char>,
    pub cov: Seq<char>,
}

impl View for BedLine {
    type V = LineView;

    open spec fn view(&self) -> LineView {
        LineView { key: self.coords@, ratio: self.ratio@, meth: self.meth@, cov: self.cov@ }
    }
}

/// A line of output: the six columns in their fixed order, a tab between
/// each two, the coordinates in decimal.
pub open spec fn output_line(key: Key, ratio: Seq<char>, meth: Seq<char>, cov: Seq<char>) -> Seq<
    char,
> {
    key.chrom + seq!['\t'] + decimal(key.start) + seq!['\t'] + decimal(key.end) + seq!['\t']
        + ratio + seq!['\t'] + meth + seq!['\t'] + cov
}

/// Order of texts: character by character, a lower code point first, and a
/// proper prefix before the texts that continue it.
pub open spec fn text_lt(a: Seq<char>, b: Seq<char>) -> bool
    decreases a.len(),
{
    if b.len() == 0 {
        false
    } else if a.len() == 0 {
        true
    } else if a[0] == b[0] {
        text_lt(a.skip(1), b.skip(1))
    } else {
        a[0] < b[0]
    }
}

/// Order of keys: by chromosome name as text, then by start, then by end.
pub open spec fn key_lt(a: Key, b: Key) -> bool {
    ||| text_lt(a.chrom, b.chrom)
    ||| a.chrom == b.chrom && a.start < b.start
    ||| a.chrom == b.chrom && a.start == b.start && a.end < b.end
}

/// `key_lt` or equal.
pub open spec fn key_le(a: Key, b: Key) -> bool {
    a == b || key_lt(a, b)
}

/// Where `a` stands to `b` among texts.
pub open spec fn text_rank(a: Seq<char>, b: Seq<char>) -> Rank {
    if a == b {
        Rank::Same
    } else if text_lt(a, b) {
        Rank::Before
    } else {
        Rank::After
    }
}

/// Where `a` stands to `b` among keys.
pub open spec fn key_rank(a: Key, b: Key) -> Rank {
    if a == b {
        Rank::Same
    } else if key_lt(a, b) {
        Rank::Before
    } else {
        Rank::After
    }
}

/// No text comes before itself.
pub proof fn lemma_text_lt_irreflexive(a: Seq<char>)
    ensures
        !text_lt(a, a),
    decreases a.len(),
{
    if a.len() > 0 {
        lemma_text_lt_irreflexive(a.skip(1));
    }
}

/// Of two texts at most one comes before the other.
pub proof fn lemma_text_lt_asymmetric(a: Seq<char>, b: Seq<char>)
    requires
        text_lt(a, b),
    ensures
        !text_lt(b, a),
    decreases a.len(),
{
    if a.len() > 0 && b.len() > 0 && a[0] == b[0] {
        lemma_text_lt_asymmetric(a.skip(1), b.skip(1));
    }
}

/// The order of texts is transitive.
pub proof fn lemma_text_lt_transitive(a: Seq<char>, b: Seq<char>, c: Seq<char>)
    requires
        text_lt(a, b),
        text_lt(b, c),
    ensures
        text_lt(a, c),
    decreases a.len(),
{
    if a.len() > 0 && b.len() > 0 && c.len() > 0 && a[0] == b[0] && b[0] == c[0] {
        lemma_text_lt_transitive(a.skip(1), b.skip(1), c.skip(1));
    }
}

/// Of two different texts one comes before the other.
pub proof fn lemma_text_lt_connected(a: Seq<char>, b: Seq<char>)
    requires
        a != b,
    ensures
        text_lt(a, b) || text_lt(b, a),
    decreases a.len(),
{
    if a.len() > 0 && b.len() > 0 && a[0] == b[0] {
        let x = a.skip(1);
        let y = b.skip(1);
        if x == y {
            assert(a =~= seq![a[0]] + x);
            assert(b =~= seq![b[0]] + y);
        }
        lemma_text_lt_connected(x, y);
    } else if a.len() == 0 && b.len() == 0 {
        assert(a =~= b);
    }
}

/// Two texts that agree on their first `k` characters stand to each other as
/// what follows those characters.
pub proof fn lemma_text_lt_after_prefix(a: Seq<char>, b: Seq<char>, k: int)
    requires
        0 <= k <= a.len(),
        k <= b.len(),
        a.take(k) == b.take(k),
    ensures
        text_lt(a, b) == text_lt(a.skip(k), b.skip(k)),
        (a == b) == (a.skip(k) == b.skip(k)),
    decreases k,
{
    if k == 0 {
        assert(a.skip(0) =~= a);
        assert(b.skip(0) =~= b);
    } else {
        let x = a.skip(1);
        let y = b.skip(1);
        assert(x.take(k - 1) =~= a.take(k).skip(1));
        assert(y.take(k - 1) =~= b.take(k).skip(1));
        lemma_text_lt_after_prefix(x, y, k - 1);
        assert(x.skip(k - 1) =~= a.skip(k));
        assert(y.skip(k - 1) =~= b.skip(k));
        assert(a =~= a.take(k) + a.skip(k));
        assert(b =~= b.take(k) + b.skip(k));
    }
}

/// No key comes before itself.
pub proof fn lemma_key_lt_irreflexive(a: Key)
    ensures
        !key_lt(a, a),
{
    lemma_text_lt_irreflexive(a.chrom);
}

/// The order of keys is transitive.
pub proof fn lemma_key_lt_transitive(a: Key, b: Key, c: Key)
    requires
        key_lt(a, b),
        key_lt(b, c),
    ensures
        key_lt(a, c),
{
    if text_lt(a.chrom, b.chrom) && text_lt(b.chrom, c.chrom) {
        lemma_text_lt_transitive(a.chrom, b.chrom, c.chrom);
    }
}

/// Of two different keys one comes before the other.
pub proof fn lemma_key_lt_connected(a: Key, b: Key)
    requires
        a != b,
    ensures
        key_lt(a, b) || key_lt(b, a),
{
    if a.chrom != b.chrom {
        lemma_text_lt_connected(a.chrom, b.chrom);
    }
}

/// Where one text stands to another.
pub fn rank_texts(a: &str, b: &str) -> (r: Rank)
    ensures
        r == text_rank(a@, b@),
{
    let mut left = a.chars();
    let mut right = b.chars();
    let ghost mut k: int = 0;
    loop
        invariant
            0 <= k <= a@.len(),
            k <= b@.len(),
            left.obeys_prophetic_iter_laws(),
            right.obeys_prophetic_iter_laws(),
            left.remaining() == a@.skip(k),
            right.remaining() == b@.skip(k),
            a@.take(k) == b@.take(k),
        decreases a@.len() - k,
    {
        let x = left.next();
        let y = right.next();
        proof {
            lemma_text_lt_after_prefix(a@, b@, k);
            lemma_text_lt_after_prefix(b@, a@, k);
        }
        match (x, y) {
            (None, None) => {
                assert(a@.skip(k) =~= b@.skip(k));
                return Rank::Same;
            },
            (None, Some(_)) => {
                return Rank::Before;
            },
            (Some(_), None) => {
                return Rank::After;
            },
            (Some(p), Some(q)) => {
                if p < q {
                    return Rank::Before;
                } else if q < p {
                    return Rank::After;
                }
                proof {
                    k = k + 1;
                }
            },
        }
    }
}

impl BedCoords {
    /// Where this key stands to another.
    pub fn compare(&self, other: &BedCoords) -> (r: Rank)
        ensures
            r == key_rank(self@, other@),
    {
        proof {
            lemma_text_lt_irreflexive(self.chrom@);
            if text_lt(self.chrom@, other.chrom@) {
                lemma_text_lt_asymmetric(self.chrom@, other.chrom@);
            }
            if self.chrom@ != other.chrom@ {
                lemma_text_lt_connected(self.chrom@, other.chrom@);
            }
        }
        match rank_texts(self.chrom.as_str(), other.chrom.as_str()) {
            Rank::Before => Rank::Before,
            Rank::After => Rank::After,
            Rank::Same => {
                if self.start < other.start {
                    Rank::Before
                } else if self.start > other.start {
                    Rank::After
                } else if self.end < other.end {
                    Rank::Before
                } else if self.end > other.end {
                    Rank::After
                } else {
                    Rank::Same
                }
            },
        }
    }
}

impl BedRecord {
    /// A second record with the same coordinates and statistics.
    pub fn duplicate(&self) -> (copy: BedRecord)
        ensures
            copy@ == self@,
    {
        BedRecord {
            coords: BedCoords {
                chrom: self.coords.chrom.clone(),
                start: self.coords.start,
                end: self.coords.end,
            },
            ratio: self.ratio,
            meth: self.meth,
            cov: self.cov,
        }
    }

    /// The record with other statistics under the same coordinates.
    pub fn with_stats(self, ratio: u32, meth: u32, cov: u32) -> (pooled: BedRecord)
        ensures
            pooled@ == (RecordView { key: self@.key, ratio, meth, cov }),
    {
        BedRecord { coords: self.coords, ratio, meth, cov }
    }

    /// The record as a line of output, given its three statistics as they are
    /// to be printed.
    pub fn line(&self, ratio: &str, meth: &str, cov: &str) -> (text: String)
        ensures
            text@ == output_line(self@.key, ratio@, meth@, cov@),
    {
        let start = decimal_string(self.coords.start);
        let end = decimal_string(self.coords.end);
        proof {
            reveal_strlit("\t");
        }
        self.coords.chrom.clone().concat("\t").concat(start.as_str()).concat("\t").concat(
            end.as_str(),
        ).concat("\t").concat(ratio).concat("\t").concat(meth).concat("\t").concat(cov)
    }
}

} // verus!
