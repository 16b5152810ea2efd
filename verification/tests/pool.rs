use bedpool::{sync2, BedError, BedFile, BedRecord, Row, Step};

struct Input {
    file: BedFile,
    lines: std::vec::IntoIter<String>,
    reads: usize,
}

fn input(path: &str, text: &str) -> Input {
    let lines: Vec<String> = text.split_inclusive('\n').map(|l| l.to_string()).collect();
    Input { file: BedFile::new(path, Ok(())).unwrap(), lines: lines.into_iter(), reads: 0 }
}

fn stat(text: &str) -> Result<u32, String> {
    match text.parse::<f32>() {
        Ok(x) => Ok(x.to_bits()),
        Err(e) => Err(e.to_string()),
    }
}

fn show(bits: u32) -> String {
    f32::from_bits(bits).to_string()
}

fn read(input: &mut Input) -> Result<Option<BedRecord>, BedError> {
    let got = if input.file.at_eof {
        Ok(String::new())
    } else {
        input.reads += 1;
        Ok(input.lines.next().unwrap_or_default())
    };
    match input.file.next(got)? {
        None => Ok(None),
        Some(line) => {
            let (ratio, meth, cov) = (stat(&line.ratio), stat(&line.meth), stat(&line.cov));
            Ok(Some(input.file.record(line, ratio, meth, cov)?))
        }
    }
}

fn write(row: Row) -> String {
    let out = match row {
        Row::First(a) => a,
        Row::Second(b) => b,
        Row::Pooled(a, b) => {
            let meth = f32::from_bits(a.meth) + f32::from_bits(b.meth);
            let cov = f32::from_bits(a.cov) + f32::from_bits(b.cov);
            let ratio = meth / cov;
            a.with_stats(ratio.to_bits(), meth.to_bits(), cov.to_bits())
        }
    };
    out.line(&show(out.ratio), &show(out.meth), &show(out.cov))
}

fn pool_inputs(one: &mut Input, two: &mut Input, out: &mut Vec<String>) -> Result<(), BedError> {
    let mut rec1 = read(one)?;
    let mut rec2 = read(two)?;
    loop {
        match sync2(rec1, rec2) {
            Step::Done => return Ok(()),
            Step::Emit { row, keep1, keep2 } => {
                out.push(write(row));
                rec1 = match keep1 {
                    Some(kept) => Some(kept),
                    None => read(one)?,
                };
                rec2 = match keep2 {
                    Some(kept) => Some(kept),
                    None => read(two)?,
                };
            }
        }
    }
}

fn pool(a: &str, b: &str) -> (Vec<String>, Result<(), BedError>) {
    let mut out = Vec::new();
    let done = pool_inputs(&mut input("a.bed", a), &mut input("b.bed", b), &mut out);
    (out, done)
}

#[test]
fn pooling_a_line_with_its_copy_sums_the_counts() {
    let (out, done) = pool("chr1 100 200 0.5 5 10\n", "chr1 100 200 0.5 5 10\n");
    assert_eq!(done, Ok(()));
    assert_eq!(out, vec!["chr1\t100\t200\t0.5\t10\t20"]);
}

#[test]
fn pooling_two_lines_with_different_keys_keeps_both() {
    let (out, done) = pool("chr1 100 200 0.5 5 10\n", "chr1 300 400 0.25 2 8\n");
    assert_eq!(done, Ok(()));
    assert_eq!(out, vec!["chr1\t100\t200\t0.5\t5\t10", "chr1\t300\t400\t0.25\t2\t8"]);
}

#[test]
fn pooling_recomputes_the_ratio_from_the_sums() {
    let (out, done) = pool("chr1 100 200 0.5 5 10\n", "chr1 100 200 0.25 1 4\n");
    assert_eq!(done, Ok(()));
    assert_eq!(out, vec![format!("chr1\t100\t200\t{}\t6\t14", 6.0f32 / 14.0f32)]);
}

#[test]
fn pooling_with_no_coverage_gives_a_ratio_that_is_no_number() {
    let (out, done) = pool("chr1 100 200 0 0 0\n", "chr1 100 200 0 0 0\n");
    assert_eq!(done, Ok(()));
    assert_eq!(out, vec!["chr1\t100\t200\tNaN\t0\t0"]);
    let (out, _) = pool("chr1 100 200 0 1 0\n", "chr1 100 200 0 2 0\n");
    assert_eq!(out, vec!["chr1\t100\t200\tinf\t3\t0"]);
}

#[test]
fn pooling_interleaves_two_tracks() {
    let a = "chr1 100 200 0.5 5 10\nchr1 300 400 0.5 1 2\nchr2 5 6 1 3 3\n";
    let b = "chr1 50 60 0.5 2 4\nchr1 300 400 0.25 1 4\nchr2 5 7 0.5 4 8\nchrX 1 2 0.5 1 2\n";
    let (out, done) = pool(a, b);
    assert_eq!(done, Ok(()));
    assert_eq!(
        out,
        vec![
            "chr1\t50\t60\t0.5\t2\t4".to_string(),
            "chr1\t100\t200\t0.5\t5\t10".to_string(),
            format!("chr1\t300\t400\t{}\t2\t6", 2.0f32 / 6.0f32),
            "chr2\t5\t6\t1\t3\t3".to_string(),
            "chr2\t5\t7\t0.5\t4\t8".to_string(),
            "chrX\t1\t2\t0.5\t1\t2".to_string(),
        ]
    );
}

#[test]
fn pooling_a_track_with_itself_doubles_the_counts_and_keeps_the_ratio() {
    let a = "chr1 100 200 0.5 5 10\nchr1 300 400 0.25 2 8\nchr2 7 9 0.125 1.5 12\n";
    let (out, done) = pool(a, a);
    assert_eq!(done, Ok(()));
    assert_eq!(
        out,
        vec![
            "chr1\t100\t200\t0.5\t10\t20",
            "chr1\t300\t400\t0.25\t4\t16",
            "chr2\t7\t9\t0.125\t3\t24",
        ]
    );
}

#[test]
fn pooling_with_an_empty_track_passes_the_other_through() {
    let a = "chr1 100 200 0.5 5 10\nchr1 300 400 0.25 2 8\n";
    let (out, done) = pool(a, "");
    assert_eq!(done, Ok(()));
    assert_eq!(out, vec!["chr1\t100\t200\t0.5\t5\t10", "chr1\t300\t400\t0.25\t2\t8"]);
    let (out, done) = pool("", a);
    assert_eq!(done, Ok(()));
    assert_eq!(out, vec!["chr1\t100\t200\t0.5\t5\t10", "chr1\t300\t400\t0.25\t2\t8"]);
    let (out, done) = pool("", "");
    assert_eq!(done, Ok(()));
    assert_eq!(out, Vec::<String>::new());
}

#[test]
fn pooling_stops_at_a_line_with_four_columns() {
    let a = "chr1 100 200 0.5 5 10\nchr1 300 400 0.5 5 10\nchr1 500 600 0.5 5 10\n\
             chr1 700 800 0.5 5 10\nchr1 900 950 0.5\nchr1 960 970 0.5 5 10\n";
    let b = "chr1 100 200 0.5 5 10\nchr1 990 999 0.5 5 10\n";
    let (out, done) = pool(a, b);
    assert_eq!(
        done,
        Err(BedError::Parse(
            "a.bed".to_string(),
            5,
            "expected at least 6 columns, got 4".to_string()
        ))
    );
    assert_eq!(
        out,
        vec![
            "chr1\t100\t200\t0.5\t10\t20",
            "chr1\t300\t400\t0.5\t5\t10",
            "chr1\t500\t600\t0.5\t5\t10",
            "chr1\t700\t800\t0.5\t5\t10",
        ]
    );
}

#[test]
fn pooling_fails_before_any_output_on_a_bad_first_line() {
    let (out, done) = pool("chr1 100 200 0.5 5 10\n", "chr1 100 two 0.5 5 10\n");
    assert_eq!(
        done,
        Err(BedError::Parse(
            "b.bed".to_string(),
            1,
            "expected integer, but invalid digit found in string".to_string()
        ))
    );
    assert_eq!(out, Vec::<String>::new());
}

#[test]
fn pooling_stops_at_a_statistic_that_is_no_number() {
    let a = "chr1 100 200 0.5 5 10\nchr1 300 400 half 5 10\n";
    let (out, done) = pool(a, "");
    assert_eq!(
        done,
        Err(BedError::Parse(
            "a.bed".to_string(),
            2,
            "expected float, but invalid float literal".to_string()
        ))
    );
    assert_eq!(out, vec!["chr1\t100\t200\t0.5\t5\t10"]);
}

#[test]
fn pooling_reads_nothing_after_the_end_of_an_input() {
    let mut one = input("a.bed", "chr1 100 200 0.5 5 10\n");
    let mut two = input("b.bed", "chr1 1 2 0.5 5 10\nchr1 3 4 0.5 5 10\nchr1 500 600 0.5 5 10\n");
    let mut out = Vec::new();
    assert_eq!(pool_inputs(&mut one, &mut two, &mut out), Ok(()));
    assert_eq!(out.len(), 4);
    assert_eq!(one.reads, 2);
    assert_eq!(two.reads, 4);
    assert!(one.file.at_eof && two.file.at_eof);
    assert_eq!(one.file.lineno, 1);
    assert_eq!(two.file.lineno, 3);
}

#[test]
fn pooling_takes_a_last_line_without_terminator() {
    let (out, done) = pool("chr1 100 200 0.5 5 10", "chr1 100 200 0.5 5 10\r\n");
    assert_eq!(done, Ok(()));
    assert_eq!(out, vec!["chr1\t100\t200\t0.5\t10\t20"]);
}
