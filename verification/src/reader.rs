//! The cursor over one input: it is handed what each read of a line gave and
//! turns the lines into records.

use vstd::prelude::*;
use vstd::utf8::encode_utf8;
use crate::error::{BedError, ErrorView};
use crate::record::{output_line, BedCoords, BedLine, BedRecord, Key, LineView, RecordView};
use crate::text::{
    columns,
    decimal,
    decimal_string,
    first_columns,
    is_u64_text,
    is_word,
    lemma_columns_after_word,
    lemma_columns_of_word,
    lemma_decimal_reads_back,
    parse_u64,
    split_columns,
    u64_refusal,
    unsigned_value,
};

verus! {

/// The state of reading one input file.
#[derive(Clone, Debug, PartialEq, Eq)]
pub struct BedFile {
    /// Lines taken so far; the number of the last line, counted from one.
    pub lineno: usize,
    /// The last line taken, as it was read.
    pub last: Option<String>,
    /// The path of the file, for error reports.
    pub filename: String,
    /// The size, in bytes, that the buffer for the next line should have.
    pub bufsize: usize,
    /// True once the end of the input has been seen. From then on nothing is
    /// to be read from the file.
    pub at_eof: bool,
}

/// The error of a line with fewer columns than the six that a record needs.
pub open spec fn too_few_columns(path: Seq<char>, lineno: nat, found: nat) -> ErrorView {
    ErrorView::Parse(path, lineno, "expected at least 6 columns, got "@ + decimal(found))
}

/// The error of a coordinate that is no unsigned number, with the words of
/// the refusal.
pub open spec fn not_an_integer(path: Seq<char>, lineno: nat, why: Seq<char>) -> ErrorView {
    ErrorView::Parse(path, lineno, "expected integer, but "@ + why)
}

/// The error of a statistic that is no number, with the words of the
/// refusal.
pub open spec fn not_a_float(path: Seq<char>, lineno: nat, why: Seq<char>) -> ErrorView {
    ErrorView::Parse(path, lineno, "expected float, but "@ + why)
}

/// What a line of a file yields: its first six columns, the second and third
/// read as unsigned numbers, or the error of the first rule it breaks.
pub open spec fn parse_line(path: Seq<char>, lineno: nat, line: Seq<char>) -> Result<
    LineView,
    ErrorView,
> {
    let cols = columns(line);
    if cols.len() < 6 {
        Err(too_few_columns(path, lineno, cols.len()))
    } else if !is_u64_text(cols[1]) {
        Err(not_an_integer(path, lineno, u64_refusal(cols[1])))
    } else if !is_u64_text(cols[2]) {
        Err(not_an_integer(path, lineno, u64_refusal(cols[2])))
    } else {
        Ok(
            LineView {
                key: Key {
                    chrom: cols[0],
                    start: unsigned_value(cols[1]),
                    end: unsigned_value(cols[2]),
                },
                ratio: cols[3],
                meth: cols[4],
                cov: cols[5],
            },
        )
    }
}

/// The outcome of taking a line, with its texts as sequences of characters.
pub open spec fn line_outcome(out: Result<Option<BedLine>, BedError>) -> Result<
    Option<LineView>,
    ErrorView,
> {
    match out {
        Ok(Some(line)) => Ok(Some(line@)),
        Ok(None) => Ok(None),
        Err(e) => Err(e@),
    }
}

/// The record, or the error, that follows from a line and from what reading
/// its three statistics as numbers gave, the first failure in column order
/// deciding.
pub open spec fn finish_line(
    path: Seq<char>,
    lineno: nat,
    line: LineView,
    ratio: Result<u32, String>,
    meth: Result<u32, String>,
    cov: Result<u32, String>,
) -> Result<RecordView, ErrorView> {
    match (ratio, meth, cov) {
        (Err(why), _, _) => Err(not_a_float(path, lineno, why@)),
        (Ok(_), Err(why), _) => Err(not_a_float(path, lineno, why@)),
        (Ok(_), Ok(_), Err(why)) => Err(not_a_float(path, lineno, why@)),
        (Ok(r), Ok(m), Ok(c)) => Ok(RecordView { key: line.key, ratio: r, meth: m, cov: c }),
    }
}

/// The outcome of finishing a record, as plain values.
pub open spec fn record_outcome(out: Result<BedRecord, BedError>) -> Result<RecordView, ErrorView> {
    match out {
        Ok(rec) => Ok(rec@),
        Err(e) => Err(e@),
    }
}

/// The columns of a line of output and of what follows its last column:
/// the six columns of the line, then the columns of `rest`, where `rest` is
/// empty or begins with a blank.
proof fn lemma_output_columns(
    key: Key,
    ratio: Seq<char>,
    meth: Seq<char>,
    cov: Seq<char>,
    rest: Seq<char>,
)
    requires
        is_word(key.chrom),
        is_word(ratio),
        is_word(meth),
        is_word(cov),
        rest.len() == 0 || rest == seq!['\n'],
    ensures
        columns(output_line(key, ratio, meth, cov) + rest) == seq![
            key.chrom,
            decimal(key.start),
            decimal(key.end),
            ratio,
            meth,
            cov,
        ],
{
    let start = decimal(key.start);
    let end = decimal(key.end);
    let tab = seq!['\t'];
    let s5 = cov + rest;
    let s4 = meth + tab + s5;
    let s3 = ratio + tab + s4;
    let s2 = end + tab + s3;
    let s1 = start + tab + s2;
    let s0 = key.chrom + tab + s1;
    lemma_decimal_reads_back(key.start);
    lemma_decimal_reads_back(key.end);
    if rest.len() == 0 {
        lemma_columns_of_word(cov);
        assert(s5 =~= cov);
    } else {
        lemma_columns_after_word(cov, '\n', Seq::empty());
        assert(s5 =~= cov + seq!['\n'] + Seq::<char>::empty());
        assert(seq![cov] + columns(Seq::<char>::empty()) =~= seq![cov]);
    }
    lemma_columns_after_word(meth, '\t', s5);
    lemma_columns_after_word(ratio, '\t', s4);
    lemma_columns_after_word(end, '\t', s3);
    lemma_columns_after_word(start, '\t', s2);
    lemma_columns_after_word(key.chrom, '\t', s1);
    assert(output_line(key, ratio, meth, cov) + rest =~= s0);
    assert(columns(s0) =~= seq![key.chrom, start, end, ratio, meth, cov]);
}

/// What is written can be read again: the line of output of a record, with
/// its line feed or as a last line without one, yields the coordinates of
/// the record and the three statistics as they were printed, provided that
/// the chromosome name and the printed statistics can each stand as a
/// column.
pub proof fn lemma_line_reads_back(
    path: Seq<char>,
    lineno: nat,
    key: Key,
    ratio: Seq<char>,
    meth: Seq<char>,
    cov: Seq<char>,
)
    requires
        is_word(key.chrom),
        is_word(ratio),
        is_word(meth),
        is_word(cov),
        key.start <= u64::MAX,
        key.end <= u64::MAX,
    ensures
        parse_line(path, lineno, output_line(key, ratio, meth, cov).push('\n')) == Ok::<
            LineView,
            ErrorView,
        >(LineView { key, ratio, meth, cov }),
        parse_line(path, lineno, output_line(key, ratio, meth, cov)) == Ok::<LineView, ErrorView>(
            LineView { key, ratio, meth, cov },
        ),
{
    let written = output_line(key, ratio, meth, cov);
    lemma_decimal_reads_back(key.start);
    lemma_decimal_reads_back(key.end);
    lemma_output_columns(key, ratio, meth, cov, seq!['\n']);
    lemma_output_columns(key, ratio, meth, cov, Seq::empty());
    assert(written.push('\n') =~= written + seq!['\n']);
    assert(written =~= written + Seq::<char>::empty());
}

impl BedFile {
    /// The cursor over a file, given its path and how opening it went: `Ok`,
    /// or the failure in words.
    pub fn new(fname: &str, opened: Result<(), String>) -> (made: Result<BedFile, BedError>)
        ensures
            match opened {
                Ok(_) => {
                    &&& made matches Ok(file)
                    &&& file.lineno == 0
                    &&& file.last is None
                    &&& file.filename@ == fname@
                    &&& file.bufsize == 32
                    &&& !file.at_eof
                },
                Err(why) => made matches Err(e) && e@ == ErrorView::File(fname@, why@),
            },
    {
        let filename = String::from_str(fname);
        match opened {
            Err(io_error) => Err(BedError::File(filename, io_error)),
            Ok(_) => Ok(BedFile { lineno: 0, last: None, filename, bufsize: 32, at_eof: false }),
        }
    }

    /// The error of a failed read of this file.
    pub fn file_error(&self, why: String) -> (e: BedError)
        ensures
            e@ == ErrorView::File(self.filename@, why@),
    {
        BedError::File(self.filename.clone(), why)
    }

    /// The error of a coordinate on the last line that is no unsigned
    /// number.
    pub fn integer_error(&self, why: &str) -> (e: BedError)
        ensures
            e@ == not_an_integer(self.filename@, self.lineno as nat, why@),
    {
        BedError::Parse(
            self.filename.clone(),
            self.lineno,
            String::from_str("expected integer, but ").concat(why),
        )
    }

    /// The error of a statistic on the last line that is no number.
    pub fn float_error(&self, why: &str) -> (e: BedError)
        ensures
            e@ == not_a_float(self.filename@, self.lineno as nat, why@),
    {
        BedError::Parse(
            self.filename.clone(),
            self.lineno,
            String::from_str("expected float, but ").concat(why),
        )
    }

    /// Takes what reading the next line gave: the line with its terminator,
    /// an empty text where the input has ended, or the failure in words.
    ///
    /// Once the end has been seen, every call returns `Ok(None)` and leaves
    /// the cursor as it is, whatever it is handed. A failed read is the
    /// file's error. Any other line counts, also where it breaks the format:
    /// the line number goes up by one before the line is looked at.
    pub fn next(&mut self, read: Result<String, String>) -> (out: Result<Option<BedLine>, BedError>)
        requires
            old(self).lineno < usize::MAX,
        ensures
            old(self).at_eof ==> *final(self) == *old(self) && out matches Ok(None),
            !old(self).at_eof ==> match read {
                Err(why) => {
                    &&& *final(self) == *old(self)
                    &&& out matches Err(e)
                    &&& e@ == ErrorView::File(old(self).filename@, why@)
                },
                Ok(line) => {
                    &&& final(self).filename == old(self).filename
                    &&& final(self).bufsize == encode_utf8(line@).len()
                    &&& if line@.len() == 0 {
                        &&& final(self).at_eof
                        &&& final(self).lineno == old(self).lineno
                        &&& final(self).last == old(self).last
                        &&& out matches Ok(None)
                    } else {
                        &&& !final(self).at_eof
                        &&& final(self).lineno == old(self).lineno + 1
                        &&& final(self).last == Some(line)
                        &&& line_outcome(out) == match parse_line(
                            old(self).filename@,
                            (old(self).lineno + 1) as nat,
                            line@,
                        ) {
                            Ok(found) => Ok(Some(found)),
                            Err(e) => Err(e),
                        }
                    }
                },
            },
    {
        if self.at_eof {
            return Ok(None);
        }
        let line = match read {
            Err(why) => {
                return Err(self.file_error(why));
            },
            Ok(line) => line,
        };
        self.bufsize = line.as_str().as_bytes().len();
        if line.as_str().is_empty() {
            self.at_eof = true;
            return Ok(None);
        }
        self.lineno = self.lineno + 1;
        let mut parts = split_columns(line.as_str(), 6);
        let ghost cols = columns(line@);
        assert(parts.deep_view() == first_columns(line@, 6));
        self.last = Some(line);
        if parts.len() < 6 {
            let found = decimal_string(parts.len() as u64);
            return Err(
                BedError::Parse(
                    self.filename.clone(),
                    self.lineno,
                    String::from_str("expected at least 6 columns, got ").concat(found.as_str()),
                ),
            );
        }
        let ghost whole = parts@;
        assert forall|i: int| 0 <= i < 6 implies (#[trigger] whole[i])@ == cols[i] by {
            assert(parts.deep_view()[i] == whole[i]@);
        }
        let cov = parts.pop().unwrap();
        let meth = parts.pop().unwrap();
        let ratio = parts.pop().unwrap();
        let end_text = parts.pop().unwrap();
        let start_text = parts.pop().unwrap();
        let chrom = parts.pop().unwrap();
        let start = match parse_u64(start_text.as_str()) {
            Ok(value) => value,
            Err(why) => {
                return Err(self.integer_error(why.as_str()));
            },
        };
        let end = match parse_u64(end_text.as_str()) {
            Ok(value) => value,
            Err(why) => {
                return Err(self.integer_error(why.as_str()));
            },
        };
        Ok(Some(BedLine { coords: BedCoords { chrom, start, end }, ratio, meth, cov }))
    }

    /// Finishes the record of the last line, given what reading each of its
    /// three statistics as a single-precision number gave: the number's bit
    /// pattern, or the refusal in words.
    pub fn record(
        &self,
        line: BedLine,
        ratio: Result<u32, String>,
        meth: Result<u32, String>,
        cov: Result<u32, String>,
    ) -> (out: Result<BedRecord, BedError>)
        ensures
            record_outcome(out) == finish_line(
                self.filename@,
                self.lineno as nat,
                line@,
                ratio,
                meth,
                cov,
            ),
    {
        let ratio = match ratio {
            Ok(bits) => bits,
            Err(why) => {
                return Err(self.float_error(why.as_str()));
            },
        };
        let meth = match meth {
            Ok(bits) => bits,
            Err(why) => {
                return Err(self.float_error(why.as_str()));
            },
        };
        let cov = match cov {
            Ok(bits) => bits,
            Err(why) => {
                return Err(self.float_error(why.as_str()));
            },
        };
        Ok(BedRecord { coords: line.coords, ratio, meth, cov })
    }
}

} // verus!
