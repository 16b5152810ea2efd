//! What can go wrong while two tracks are pooled.

use vstd::prelude::*;
use crate::text::{decimal, decimal_string, is_digit, lemma_decimal_reads_back};

verus! {

/// A failure of a read or of a line.
#[derive(Clone, Debug, PartialEq, Eq)]
pub enum BedError {
    /// Input or output failed, with no file to blame: the failure in words.
    IO(String),
    /// A file could not be opened or read: its path, then the failure in words.
    File(String, String),
    /// A line broke the format: the file's path, the line's number counted
    /// from one, and what was expected.
    Parse(String, usize, String),
}

/// A `BedError` with its texts as sequences of characters.
pub enum ErrorView {
    IO(Seq<char>),
    File(Seq<char>, Seq<char>),
    Parse(Seq<char>, nat, Seq<char>),
}

impl View for BedError {
    type V = ErrorView;

    open spec fn view(&self) -> ErrorView {
        match self {
            BedError::IO(why) => ErrorView::IO(why@),
            BedError::File(path, why) => ErrorView::File(path@, why@),
            BedError::Parse(path, line, why) => ErrorView::Parse(path@, *line as nat, why@),
        }
    }
}

/// True for a text that holds no line feed.
pub open spec fn one_line(s: Seq<char>) -> bool {
    forall|i: int| 0 <= i < s.len() ==> #[trigger] s[i] != '\n'
}

/// The report of an error, on one line: its kind, where it arose, then the
/// cause.
pub open spec fn report(e: ErrorView) -> Seq<char> {
    match e {
        ErrorView::IO(why) => "An IO error occurred: "@ + why,
        ErrorView::File(path, why) => "An IO error occurred with file '"@ + path + "': "@ + why,
        ErrorView::Parse(path, line, why) => "A parse error occurred on line "@ + decimal(line)
            + " of file '"@ + path + "': "@ + why,
    }
}

/// The report of an error is a single line, provided that the path and the
/// cause that the error carries are each a single line.
pub proof fn lemma_report_is_one_line(e: ErrorView)
    requires
        match e {
            ErrorView::IO(why) => one_line(why),
            ErrorView::File(path, why) => one_line(path) && one_line(why),
            ErrorView::Parse(path, _, why) => one_line(path) && one_line(why),
        },
    ensures
        one_line(report(e)),
{
    reveal_strlit("An IO error occurred: ");
    reveal_strlit("An IO error occurred with file '");
    reveal_strlit("A parse error occurred on line ");
    reveal_strlit(" of file '");
    reveal_strlit("': ");
    assert(one_line("An IO error occurred: "@));
    assert(one_line("An IO error occurred with file '"@));
    assert(one_line("A parse error occurred on line "@));
    assert(one_line(" of file '"@));
    assert(one_line("': "@));
    match e {
        ErrorView::IO(why) => {},
        ErrorView::File(path, why) => {},
        ErrorView::Parse(path, line, why) => {
            lemma_decimal_reads_back(line);
            assert(one_line(decimal(line))) by {
                assert forall|i: int| 0 <= i < decimal(line).len() implies #[trigger] decimal(
                    line,
                )[i] != '\n' by {
                    assert(is_digit(decimal(line)[i]));
                }
            }
        },
    }
}

impl BedError {
    /// The report of this error, as it is shown to the user.
    pub fn to_string(&self) -> (text: String)
        ensures
            text@ == report(self@),
    {
        match self {
            BedError::IO(why) => String::from_str("An IO error occurred: ").concat(why.as_str()),
            BedError::File(path, why) => String::from_str("An IO error occurred with file '").concat(
                path.as_str(),
            ).concat("': ").concat(why.as_str()),
            BedError::Parse(path, line, why) => {
                let number = decimal_string(*line as u64);
                String::from_str("A parse error occurred on line ").concat(number.as_str()).concat(
                    " of file '",
                ).concat(path.as_str()).concat("': ").concat(why.as_str())
            },
        }
    }
}

} // verus!
