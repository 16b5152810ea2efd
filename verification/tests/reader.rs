use bedpool::{BedCoords, BedError, BedFile, BedLine, BedRecord};

fn open(path: &str) -> BedFile {
    BedFile::new(path, Ok(())).unwrap()
}

fn line(text: &str) -> Result<String, String> {
    Ok(text.to_string())
}

fn bed_line(chrom: &str, start: u64, end: u64, ratio: &str, meth: &str, cov: &str) -> BedLine {
    BedLine {
        coords: BedCoords { chrom: chrom.to_string(), start, end },
        ratio: ratio.to_string(),
        meth: meth.to_string(),
        cov: cov.to_string(),
    }
}

fn read_stat(text: &str) -> Result<u32, String> {
    match text.parse::<f32>() {
        Ok(x) => Ok(x.to_bits()),
        Err(e) => Err(e.to_string()),
    }
}

#[test]
fn new_starts_before_the_first_line() {
    let file = BedFile::new("a.bed", Ok(())).unwrap();
    assert_eq!(file.lineno, 0);
    assert_eq!(file.last, None);
    assert_eq!(file.filename, "a.bed");
    assert_eq!(file.bufsize, 32);
    assert!(!file.at_eof);
}

#[test]
fn new_reports_a_file_that_does_not_open() {
    let made = BedFile::new("missing.bed", Err("No such file or directory (os error 2)".to_string()));
    assert_eq!(
        made,
        Err(BedError::File(
            "missing.bed".to_string(),
            "No such file or directory (os error 2)".to_string()
        ))
    );
}

#[test]
fn next_reads_a_line_of_six_columns() {
    let mut file = open("a.bed");
    let got = file.next(line("chr1 100 200 0.5 5 10\n"));
    assert_eq!(got, Ok(Some(bed_line("chr1", 100, 200, "0.5", "5", "10"))));
    assert_eq!(file.lineno, 1);
    assert_eq!(file.last, Some("chr1 100 200 0.5 5 10\n".to_string()));
    assert_eq!(file.bufsize, 22);
    assert!(!file.at_eof);
}

#[test]
fn next_splits_on_runs_of_blanks() {
    let mut file = open("a.bed");
    let got = file.next(line("\tchrX   7\t\t9 \t1e-3  +2.5   inf\r\n"));
    assert_eq!(got, Ok(Some(bed_line("chrX", 7, 9, "1e-3", "+2.5", "inf"))));
}

#[test]
fn next_ignores_columns_after_the_sixth() {
    let mut file = open("a.bed");
    let got = file.next(line("chr1 100 200 0.5 5 10 extra not-a-number\n"));
    assert_eq!(got, Ok(Some(bed_line("chr1", 100, 200, "0.5", "5", "10"))));
}

#[test]
fn next_takes_a_plus_sign_and_leading_zeros() {
    let mut file = open("a.bed");
    let got = file.next(line("chr1 +100 000200 0.5 5 10\n"));
    assert_eq!(got, Ok(Some(bed_line("chr1", 100, 200, "0.5", "5", "10"))));
    let got = file.next(line("chr1 0 18446744073709551615 0.5 5 10\n"));
    assert_eq!(got, Ok(Some(bed_line("chr1", 0, u64::MAX, "0.5", "5", "10"))));
}

#[test]
fn next_takes_zeros_without_end_before_a_number() {
    let mut file = open("a.bed");
    let got = file.next(line("chr1 +0 0000000000000000000000000000000000000018446744073709551615 0.5 5 10\n"));
    assert_eq!(got, Ok(Some(bed_line("chr1", 0, u64::MAX, "0.5", "5", "10"))));
}

#[test]
fn next_counts_lines() {
    let mut file = open("a.bed");
    for n in 1..=5usize {
        let text = format!("chr1 {} {} 0.5 5 10\n", n, n + 1);
        let got = file.next(Ok(text.clone())).unwrap().unwrap();
        assert_eq!(got.coords.start, n as u64);
        assert_eq!(file.lineno, n);
        assert_eq!(file.last, Some(text));
    }
}

#[test]
fn next_ends_on_an_empty_read() {
    let mut file = open("a.bed");
    file.next(line("chr1 100 200 0.5 5 10\n")).unwrap();
    assert_eq!(file.next(line("")), Ok(None));
    assert!(file.at_eof);
    assert_eq!(file.bufsize, 0);
    assert_eq!(file.lineno, 1);
    assert_eq!(file.last, Some("chr1 100 200 0.5 5 10\n".to_string()));
}

#[test]
fn next_stays_at_the_end() {
    let mut file = open("a.bed");
    assert_eq!(file.next(line("")), Ok(None));
    let at_end = file.clone();
    assert_eq!(file.next(line("chr1 100 200 0.5 5 10\n")), Ok(None));
    assert_eq!(file, at_end);
    assert_eq!(file.next(Err("broken".to_string())), Ok(None));
    assert_eq!(file, at_end);
    assert_eq!(file.next(line("")), Ok(None));
    assert_eq!(file, at_end);
}

#[test]
fn next_reports_a_failed_read() {
    let mut file = open("dir/a.bed");
    file.next(line("chr1 100 200 0.5 5 10\n")).unwrap();
    let before = file.clone();
    let got = file.next(Err("stream did not contain valid UTF-8".to_string()));
    assert_eq!(
        got,
        Err(BedError::File(
            "dir/a.bed".to_string(),
            "stream did not contain valid UTF-8".to_string()
        ))
    );
    assert_eq!(file, before);
}

#[test]
fn next_reports_too_few_columns() {
    let mut file = open("a.bed");
    let got = file.next(line("chr1 100 200 0.5\n"));
    assert_eq!(
        got,
        Err(BedError::Parse(
            "a.bed".to_string(),
            1,
            "expected at least 6 columns, got 4".to_string()
        ))
    );
    assert_eq!(file.lineno, 1);
}

#[test]
fn next_counts_a_blank_line_as_a_line() {
    let mut file = open("a.bed");
    let got = file.next(line("\n"));
    assert_eq!(
        got,
        Err(BedError::Parse(
            "a.bed".to_string(),
            1,
            "expected at least 6 columns, got 0".to_string()
        ))
    );
    assert_eq!(file.lineno, 1);
    assert!(!file.at_eof);
}

#[test]
fn next_cites_the_fifth_line_with_four_columns() {
    let mut file = open("tracks/a.bed");
    for n in 1..=4u64 {
        let text = format!("chr1 {} {} 0.5 5 10\n", n * 100, n * 100 + 50);
        assert!(matches!(file.next(Ok(text)), Ok(Some(_))));
    }
    let got = file.next(line("chr1 500 550 0.5\n"));
    assert_eq!(
        got,
        Err(BedError::Parse(
            "tracks/a.bed".to_string(),
            5,
            "expected at least 6 columns, got 4".to_string()
        ))
    );
    assert_eq!(
        got.unwrap_err().to_string(),
        "A parse error occurred on line 5 of file 'tracks/a.bed': expected at least 6 columns, got 4"
    );
}

#[test]
fn next_reports_a_start_that_is_no_number() {
    let mut file = open("a.bed");
    let why = "x100".parse::<u64>().unwrap_err().to_string();
    let got = file.next(line("chr1 x100 200 0.5 5 10\n"));
    assert_eq!(
        got,
        Err(BedError::Parse("a.bed".to_string(), 1, format!("expected integer, but {}", why)))
    );
    assert_eq!(
        got.unwrap_err(),
        BedError::Parse(
            "a.bed".to_string(),
            1,
            "expected integer, but invalid digit found in string".to_string()
        )
    );
}

#[test]
fn next_reports_an_end_that_is_too_large() {
    let mut file = open("a.bed");
    file.next(line("chr1 1 2 0.5 5 10\n")).unwrap();
    let got = file.next(line("chr1 100 18446744073709551616 0.5 5 10\n"));
    assert_eq!(
        got,
        Err(BedError::Parse(
            "a.bed".to_string(),
            2,
            "expected integer, but number too large to fit in target type".to_string()
        ))
    );
}

#[test]
fn next_refuses_signs_and_stray_characters() {
    for bad in ["-1", "+", "-", "1_000", "12a", "0x10", "1.0", "１２"] {
        let mut file = open("a.bed");
        let why = bad.parse::<u64>().unwrap_err().to_string();
        let got = file.next(Ok(format!("chr1 {} 200 0.5 5 10\n", bad)));
        assert_eq!(
            got,
            Err(BedError::Parse("a.bed".to_string(), 1, format!("expected integer, but {}", why))),
            "{:?}",
            bad
        );
    }
}

#[test]
fn next_reports_the_first_bad_coordinate() {
    let mut file = open("a.bed");
    let got = file.next(line("chr1 99999999999999999999 nope 0.5 5 10\n"));
    assert_eq!(
        got,
        Err(BedError::Parse(
            "a.bed".to_string(),
            1,
            "expected integer, but number too large to fit in target type".to_string()
        ))
    );
}

#[test]
fn next_checks_the_column_count_first() {
    let mut file = open("a.bed");
    let got = file.next(line("chr1 nope nope 0.5 5\n"));
    assert_eq!(
        got,
        Err(BedError::Parse(
            "a.bed".to_string(),
            1,
            "expected at least 6 columns, got 5".to_string()
        ))
    );
}

#[test]
fn next_goes_on_after_a_bad_line_is_reported() {
    let mut file = open("a.bed");
    assert!(file.next(line("chr1 100\n")).is_err());
    let got = file.next(line("chr1 100 200 0.5 5 10\n"));
    assert_eq!(got, Ok(Some(bed_line("chr1", 100, 200, "0.5", "5", "10"))));
    assert_eq!(file.lineno, 2);
}

#[test]
fn record_takes_the_three_statistics() {
    let file = open("a.bed");
    let got = file.record(
        bed_line("chr1", 100, 200, "0.5", "5", "10"),
        read_stat("0.5"),
        read_stat("5"),
        read_stat("10"),
    );
    assert_eq!(
        got,
        Ok(BedRecord {
            coords: BedCoords { chrom: "chr1".to_string(), start: 100, end: 200 },
            ratio: 0.5f32.to_bits(),
            meth: 5f32.to_bits(),
            cov: 10f32.to_bits(),
        })
    );
}

#[test]
fn record_reports_a_statistic_that_is_no_number() {
    let mut file = open("a.bed");
    let read = file.next(line("chr1 100 200 0.5 many 10\n")).unwrap().unwrap();
    let (ratio, meth, cov) = (read_stat(&read.ratio), read_stat(&read.meth), read_stat(&read.cov));
    let got = file.record(read, ratio, meth, cov);
    assert_eq!(
        got,
        Err(BedError::Parse(
            "a.bed".to_string(),
            1,
            "expected float, but invalid float literal".to_string()
        ))
    );
}

#[test]
fn record_reports_the_first_bad_statistic() {
    let file = open("a.bed");
    let read = bed_line("chr1", 100, 200, "r", "m", "c");
    let bad = |why: &str| -> Result<u32, String> { Err(why.to_string()) };
    let fine: Result<u32, String> = Ok(0);
    let parse = |why: &str| BedError::Parse("a.bed".to_string(), 0, format!("expected float, but {}", why));
    assert_eq!(file.record(read.clone(), bad("r"), bad("m"), bad("c")), Err(parse("r")));
    assert_eq!(file.record(read.clone(), fine.clone(), bad("m"), bad("c")), Err(parse("m")));
    assert_eq!(file.record(read.clone(), fine.clone(), fine.clone(), bad("c")), Err(parse("c")));
    assert_eq!(file.record(read.clone(), bad("r"), fine.clone(), fine.clone()), Err(parse("r")));
}

#[test]
fn record_cites_the_line_last_read() {
    let mut file = open("b.bed");
    file.next(line("chr1 1 2 0.5 5 10\n")).unwrap();
    file.next(line("chr1 3 4 0.5 5 10\n")).unwrap();
    let read = file.next(line("chr1 5 6 0.5 5 ten\n")).unwrap().unwrap();
    let got = file.record(read, read_stat("0.5"), read_stat("5"), read_stat("ten"));
    assert_eq!(
        got.unwrap_err().to_string(),
        "A parse error occurred on line 3 of file 'b.bed': expected float, but invalid float literal"
    );
}

#[test]
fn errors_of_a_file_name_the_file_and_the_line() {
    let mut file = open("c.bed");
    file.next(line("chr1 1 2 0.5 5 10\n")).unwrap();
    assert_eq!(
        file.file_error("Input/output error (os error 5)".to_string()),
        BedError::File("c.bed".to_string(), "Input/output error (os error 5)".to_string())
    );
    assert_eq!(
        file.integer_error("invalid digit found in string"),
        BedError::Parse(
            "c.bed".to_string(),
            1,
            "expected integer, but invalid digit found in string".to_string()
        )
    );
    assert_eq!(
        file.float_error("invalid float literal"),
        BedError::Parse("c.bed".to_string(), 1, "expected float, but invalid float literal".to_string())
    );
}

#[test]
fn to_string_reports_each_kind_of_error() {
    assert_eq!(
        BedError::IO("Broken pipe (os error 32)".to_string()).to_string(),
        "An IO error occurred: Broken pipe (os error 32)"
    );
    assert_eq!(
        BedError::File("a.bed".to_string(), "No such file or directory (os error 2)".to_string())
            .to_string(),
        "An IO error occurred with file 'a.bed': No such file or directory (os error 2)"
    );
    assert_eq!(
        BedError::Parse("a.bed".to_string(), 12, "expected at least 6 columns, got 3".to_string())
            .to_string(),
        "A parse error occurred on line 12 of file 'a.bed': expected at least 6 columns, got 3"
    );
    assert_eq!(
        BedError::Parse(String::new(), usize::MAX, String::new()).to_string(),
        format!("A parse error occurred on line {} of file '': ", usize::MAX)
    );
}

#[test]
fn next_reads_back_what_line_wrote() {
    let record = BedRecord {
        coords: BedCoords { chrom: "chr7_random".to_string(), start: 0, end: u64::MAX },
        ratio: 0.25f32.to_bits(),
        meth: 2f32.to_bits(),
        cov: 8f32.to_bits(),
    };
    let mut written = record.line("0.25", "2", "8");
    written.push('\n');
    let mut file = open("a.bed");
    let read = file.next(Ok(written)).unwrap().unwrap();
    assert_eq!(read, bed_line("chr7_random", 0, u64::MAX, "0.25", "2", "8"));
    let (ratio, meth, cov) = (read_stat(&read.ratio), read_stat(&read.meth), read_stat(&read.cov));
    assert_eq!(file.record(read, ratio, meth, cov), Ok(record));
}

#[test]
fn to_string_is_a_single_line() {
    let errors = [
        BedError::IO("Broken pipe (os error 32)".to_string()),
        BedError::File("a.bed".to_string(), "No such file or directory (os error 2)".to_string()),
        BedError::Parse("a.bed".to_string(), 5, "expected at least 6 columns, got 4".to_string()),
        BedError::Parse(String::new(), 0, String::new()),
    ];
    for e in errors {
        let text = e.to_string();
        assert!(!text.contains('\n'), "{:?}", text);
        assert_eq!(text.lines().count(), 1);
    }
}

#[test]
fn to_string_begins_with_the_kind_and_ends_with_the_cause() {
    let text = BedError::Parse("x.bed".to_string(), 7, "expected float, but invalid float literal".to_string())
        .to_string();
    assert_eq!(
        text,
        "A parse error occurred on line 7 of file 'x.bed': expected float, but invalid float literal"
    );
    let text = BedError::File("x.bed".to_string(), "denied".to_string()).to_string();
    assert_eq!(text, "An IO error occurred with file 'x.bed': denied");
    let text = BedError::IO("denied".to_string()).to_string();
    assert_eq!(text, "An IO error occurred: denied");
}

#[test]
fn next_reads_back_a_last_line_without_line_feed() {
    let record = BedRecord {
        coords: BedCoords { chrom: "chrM".to_string(), start: 12, end: 34 },
        ratio: 0.5f32.to_bits(),
        meth: 1f32.to_bits(),
        cov: 2f32.to_bits(),
    };
    let written = record.line("0.5", "1", "2");
    let mut file = open("a.bed");
    let read = file.next(Ok(written)).unwrap().unwrap();
    assert_eq!(read, bed_line("chrM", 12, 34, "0.5", "1", "2"));
    let (ratio, meth, cov) = (read_stat(&read.ratio), read_stat(&read.meth), read_stat(&read.cov));
    assert_eq!(file.record(read, ratio, meth, cov), Ok(record));
}
