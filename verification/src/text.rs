//! Characters, columns and decimal numbers.

use vstd::prelude::*;
use vstd::std_specs::iter::IteratorSpec;

verus! {

/// The characters that separate columns: space, tab, line feed, form feed and
/// carriage return.
pub open spec fn is_blank(c: char) -> bool {
    c == ' ' || c == '\t' || c == '\n' || c == '\x0C' || c == '\r'
}

/// Length of the longest prefix of `s` that holds no blank.
pub open spec fn word_run(s: Seq<char>) -> nat
    decreases s.len(),
{
    if s.len() > 0 && !is_blank(s[0]) {
        1 + word_run(s.skip(1))
    } else {
        0
    }
}

/// The columns of a line: its maximal runs of characters that are not blank,
/// from left to right.
pub open spec fn columns(s: Seq<char>) -> Seq<Seq<char>>
    decreases s.len(),
{
    if s.len() == 0 {
        Seq::empty()
    } else if is_blank(s[0]) {
        columns(s.skip(1))
    } else {
        proof {
            lemma_word_run_bounds(s);
        }
        let n = word_run(s) as int;
        seq![s.take(n)] + columns(s.skip(n))
    }
}

/// The first `limit` columns of a line, or all of them where it has fewer.
pub open spec fn first_columns(s: Seq<char>, limit: nat) -> Seq<Seq<char>> {
    let all = columns(s);
    if all.len() <= limit {
        all
    } else {
        all.take(limit as int)
    }
}

/// A word run stays inside the text, and is not empty where the text starts
/// with a character that is not blank.
pub proof fn lemma_word_run_bounds(s: Seq<char>)
    ensures
        word_run(s) <= s.len(),
        s.len() > 0 && !is_blank(s[0]) ==> word_run(s) >= 1,
    decreases s.len(),
{
    if s.len() > 0 && !is_blank(s[0]) {
        lemma_word_run_bounds(s.skip(1));
    }
}

/// A run of `k` characters without a blank counts in full towards the word run.
pub proof fn lemma_word_run_prefix(s: Seq<char>, k: int)
    requires
        0 <= k <= s.len(),
        forall|i: int| 0 <= i < k ==> !is_blank(#[trigger] s[i]),
    ensures
        word_run(s) == k + word_run(s.skip(k)),
    decreases k,
{
    if k == 0 {
        assert(s.skip(0) =~= s);
    } else {
        let t = s.skip(1);
        assert forall|i: int| 0 <= i < k - 1 implies !is_blank(#[trigger] t[i]) by {
            assert(t[i] == s[i + 1]);
        }
        lemma_word_run_prefix(t, k - 1);
        assert(t.skip(k - 1) =~= s.skip(k));
    }
}

/// True for a text that can stand as one column: not empty, and no blank in
/// it.
pub open spec fn is_word(s: Seq<char>) -> bool {
    s.len() > 0 && forall|i: int| 0 <= i < s.len() ==> !is_blank(#[trigger] s[i])
}

/// A word alone is its own and only column.
pub proof fn lemma_columns_of_word(w: Seq<char>)
    requires
        is_word(w),
    ensures
        columns(w) == seq![w],
{
    lemma_word_run_prefix(w, w.len() as int);
    assert(w.take(w.len() as int) =~= w);
    assert(columns(w.skip(w.len() as int)) =~= Seq::<Seq<char>>::empty());
}

/// A word, a blank and more text: the word is the first column, and the
/// columns of the text follow.
pub proof fn lemma_columns_after_word(w: Seq<char>, gap: char, rest: Seq<char>)
    requires
        is_word(w),
        is_blank(gap),
    ensures
        columns(w + seq![gap] + rest) == seq![w] + columns(rest),
{
    let s = w + seq![gap] + rest;
    let k = w.len() as int;
    assert forall|i: int| 0 <= i < k implies !is_blank(#[trigger] s[i]) by {
        assert(s[i] == w[i]);
    }
    lemma_word_run_prefix(s, k);
    let tail = s.skip(k);
    assert(s.take(k) =~= w);
    assert(tail.skip(1) =~= rest);
    assert(columns(tail) == columns(rest));
}

/// The decimal digit that stands for `d`, for `d` below ten.
pub open spec fn digit_char(d: nat) -> char {
    if d == 0 {
        '0'
    } else if d == 1 {
        '1'
    } else if d == 2 {
        '2'
    } else if d == 3 {
        '3'
    } else if d == 4 {
        '4'
    } else if d == 5 {
        '5'
    } else if d == 6 {
        '6'
    } else if d == 7 {
        '7'
    } else if d == 8 {
        '8'
    } else {
        '9'
    }
}

/// A number written in decimal, without sign or leading zeros.
pub open spec fn decimal(n: nat) -> Seq<char>
    decreases n,
{
    if n < 10 {
        seq![digit_char(n)]
    } else {
        decimal(n / 10).push(digit_char(n % 10))
    }
}

/// True for the ten decimal digits.
pub open spec fn is_digit(c: char) -> bool {
    '0' <= c && c <= '9'
}

/// The number that a decimal digit stands for.
pub open spec fn digit_value(c: char) -> nat {
    (c as int - '0' as int) as nat
}

/// The number that a run of decimal digits stands for; leading zeros count
/// for nothing.
pub open spec fn digits_value(s: Seq<char>) -> nat
    decreases s.len(),
{
    if s.len() == 0 {
        0
    } else {
        10 * digits_value(s.drop_last()) + digit_value(s.last())
    }
}

/// A text without the one `+` that may stand in front of a number.
pub open spec fn unsigned_part(s: Seq<char>) -> Seq<char> {
    if s.len() > 0 && s[0] == '+' {
        s.skip(1)
    } else {
        s
    }
}

/// The number that a text stands for where it is a number.
pub open spec fn unsigned_value(s: Seq<char>) -> nat {
    digits_value(unsigned_part(s))
}

/// True where a text is an unsigned 64-bit number: an optional `+`, then one
/// or more decimal digits and nothing else, the whole no larger than
/// `u64::MAX`.
pub open spec fn is_u64_text(s: Seq<char>) -> bool {
    let digits = unsigned_part(s);
    &&& digits.len() > 0
    &&& forall|i: int| 0 <= i < digits.len() ==> is_digit(#[trigger] digits[i])
    &&& digits_value(digits) <= u64::MAX
}

/// A number written in decimal is a word made of digits, and stands for
/// that number.
pub proof fn lemma_decimal_reads_back(n: nat)
    ensures
        is_word(decimal(n)),
        forall|i: int| 0 <= i < decimal(n).len() ==> is_digit(#[trigger] decimal(n)[i]),
        unsigned_value(decimal(n)) == n,
        n <= u64::MAX ==> is_u64_text(decimal(n)),
    decreases n,
{
    let text = decimal(n);
    if n >= 10 {
        lemma_decimal_reads_back(n / 10);
        let front = decimal(n / 10);
        assert(text.drop_last() =~= front);
        assert forall|i: int| 0 <= i < text.len() implies is_digit(#[trigger] text[i]) by {
            if i < front.len() {
                assert(text[i] == front[i]);
            }
        }
    } else {
        assert(digits_value(text.drop_last()) == 0);
    }
}

/// The words in which `str::parse::<u64>` refuses `text`.
pub uninterp spec fn u64_refusal(text: Seq<char>) -> Seq<char>;

/// Tells whether a character separates columns.
pub fn blank(c: char) -> (b: bool)
    ensures
        b == is_blank(c),
{
    c == ' ' || c == '\t' || c == '\n' || c == '\x0C' || c == '\r'
}

/// The characters of a text, in order.
pub fn chars_of(s: &str) -> (v: Vec<char>)
    ensures
        v@ == s@,
{
    let mut v: Vec<char> = Vec::new();
    let mut it = s.chars();
    let ghost mut done: int = 0;
    loop
        invariant
            0 <= done <= s@.len(),
            it.obeys_prophetic_iter_laws(),
            it.remaining() == s@.skip(done),
            v@ == s@.take(done),
        ensures
            v@ == s@,
        decreases s@.len() - done,
    {
        match it.next() {
            Some(c) => {
                proof {
                    done = done + 1;
                }
                v.push(c);
            },
            None => {
                break;
            },
        }
    }
    v
}

/// Splits a line into its columns and returns the first `limit` of them.
pub fn split_columns(line: &str, limit: usize) -> (cols: Vec<String>)
    ensures
        cols.deep_view() == first_columns(line@, limit as nat),
{
    let chars = chars_of(line);
    let n: usize = chars.len();
    let mut cols: Vec<String> = Vec::new();
    let mut i: usize = 0;
    proof {
        assert(line@.skip(0) =~= line@);
    }
    while i < n && cols.len() < limit
        invariant
            chars@ == line@,
            n == chars@.len(),
            0 <= i <= n,
            cols.len() <= limit,
            columns(line@) == cols.deep_view() + columns(line@.skip(i as int)),
        decreases n - i,
    {
        let ghost rest = line@.skip(i as int);
        if blank(chars[i]) {
            proof {
                assert(rest.skip(1) =~= line@.skip(i + 1));
            }
            i = i + 1;
        } else {
            let mut j: usize = i + 1;
            while j < n && !blank(chars[j])
                invariant
                    chars@ == line@,
                    n == chars@.len(),
                    i < j <= n,
                    forall|k: int| i <= k < j ==> !is_blank(#[trigger] line@[k]),
                decreases n - j,
            {
                j = j + 1;
            }
            let word = line.substring_char(i, j);
            let ghost before = cols.deep_view();
            proof {
                let len = j - i;
                assert forall|k: int| 0 <= k < len implies !is_blank(#[trigger] rest[k]) by {
                    assert(rest[k] == line@[i + k]);
                }
                lemma_word_run_prefix(rest, len);
                assert(rest.skip(len) =~= line@.skip(j as int));
                assert(rest.take(len) =~= line@.subrange(i as int, j as int));
            }
            cols.push(String::from_str(word));
            proof {
                assert(before.push(word@) + columns(line@.skip(j as int)) =~= before + (seq![word@]
                    + columns(line@.skip(j as int))));
            }
            i = j;
        }
    }
    cols
}

/// The text of one decimal digit.
fn digit_text(d: u64) -> (text: &'static str)
    requires
        d < 10,
    ensures
        text@ == seq![digit_char(d as nat)],
{
    proof {
        reveal_strlit("0");
        reveal_strlit("1");
        reveal_strlit("2");
        reveal_strlit("3");
        reveal_strlit("4");
        reveal_strlit("5");
        reveal_strlit("6");
        reveal_strlit("7");
        reveal_strlit("8");
        reveal_strlit("9");
    }
    let text = if d == 0 {
        "0"
    } else if d == 1 {
        "1"
    } else if d == 2 {
        "2"
    } else if d == 3 {
        "3"
    } else if d == 4 {
        "4"
    } else if d == 5 {
        "5"
    } else if d == 6 {
        "6"
    } else if d == 7 {
        "7"
    } else if d == 8 {
        "8"
    } else {
        "9"
    };
    text
}

/// Writes a number in decimal.
pub fn decimal_string(n: u64) -> (text: String)
    ensures
        text@ == decimal(n as nat),
    decreases n,
{
    if n < 10 {
        String::from_str(digit_text(n))
    } else {
        let text = decimal_string(n / 10).concat(digit_text(n % 10));
        text
    }
}

/// Reads an unsigned 64-bit number with `str::parse::<u64>`.
///
/// Trusted: the call accepts exactly the texts of `is_u64_text` and returns
/// the number they stand for; of any other text it returns the error, whose
/// words are carried as text and named `u64_refusal`, since they depend on
/// the text alone.
#[verifier::external_body]
pub(crate) fn parse_u64(text: &str) -> (parsed: Result<u64, String>)
    ensures
        parsed matches Ok(value) ==> is_u64_text(text@) && value == unsigned_value(text@),
        parsed matches Err(why) ==> !is_u64_text(text@) && why@ == u64_refusal(text@),
{
    match text.parse::<u64>() {
        Ok(value) => Ok(value),
        Err(e) => Err(format!("{}", e)),
    }
}

} // verus!
