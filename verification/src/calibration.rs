//! Calibration equations: a test value and the numbers that are to give
//! it, with an operator chosen for each place between two numbers.

use crate::text::{
    digit_runs, from_num_str, good_numbers, lines, number, read_digit_runs, read_numbers, run, scan,
    split_lines, views, Class,
};
use vstd::pervasive::unreached;
use vstd::prelude::*;
use vstd::slice::slice_subrange;
use vstd::string::*;

verus! {

/// One equation: the test value and the numbers.
#[derive(Debug)]
pub struct CalibrationEquation {
    pub calibration_sum: usize,
    pub calibration_vectors: Vec<usize>,
}

/// Why a document gives no total.
#[derive(Clone, Copy, Debug, PartialEq, Eq, Structural)]
pub enum CalibrationError {
    /// The line `line` is no equation.
    BadLine { line: usize },
    /// With the test value of the line `line` the total is above
    /// `usize::MAX`.
    TooLarge { line: usize },
}

/// Ten to the number of decimal digits of `b`.
pub open spec fn shift(b: nat) -> nat
    decreases b,
{
    if b < 10 {
        10
    } else {
        10 * shift(b / 10)
    }
}

/// The number whose decimal digits are those of `a` with those of `b`
/// behind them.
pub open spec fn joined(a: nat, b: nat) -> nat {
    a * shift(b) + b
}

/// Starting from `sum`, the numbers `rest` can be brought in one after the
/// other, each by a multiplication, by an addition or, where `funny` is
/// set, by writing its digits behind the value so far, such that the value
/// never is above `limit` and is `limit` in the end.
pub open spec fn reaches(sum: nat, limit: nat, rest: Seq<usize>, funny: bool) -> bool
    decreases rest.len(),
{
    if rest.len() == 0 {
        sum == limit
    } else {
        let x = rest[0] as nat;
        let tail = rest.drop_first();
        ||| (sum * x <= limit && reaches(sum * x, limit, tail, funny))
        ||| (sum + x <= limit && reaches(sum + x, limit, tail, funny))
        ||| (funny && joined(sum, x) <= limit && reaches(joined(sum, x), limit, tail, funny))
    }
}

/// Ten to the number of decimal digits of `b`, where that fits.
pub fn shift_of(b: usize) -> (r: Option<usize>)
    ensures
        r == if shift(b as nat) <= usize::MAX {
            Some(shift(b as nat) as usize)
        } else {
            None
        },
    decreases b,
{
    if b < 10 {
        Some(10)
    } else {
        match shift_of(b / 10) {
            Some(s) => s.checked_mul(10),
            None => None,
        }
    }
}

/// The digits of `a` with those of `b` behind them, where that number fits.
pub fn join(a: usize, b: usize) -> (r: Option<usize>)
    ensures
        r == if joined(a as nat, b as nat) <= usize::MAX {
            Some(joined(a as nat, b as nat) as usize)
        } else {
            None
        },
{
    if a == 0 {
        assert(0 * shift(b as nat) == 0) by (nonlinear_arith);
        return Some(b);
    }
    match shift_of(b) {
        Some(s) => match a.checked_mul(s) {
            Some(front) => front.checked_add(b),
            None => None,
        },
        None => {
            assert(a * shift(b as nat) >= shift(b as nat)) by (nonlinear_arith)
                requires
                    a >= 1,
            ;
            None
        },
    }
}

/// Tells whether the numbers `remainder`, brought in one after the other
/// from `sum` on, can give `limit`.
pub fn calculate_recursively(
    sum: usize,
    limit: usize,
    remainder: &[usize],
    do_the_funny: bool,
) -> (r: bool)
    ensures
        r == reaches(sum as nat, limit as nat, remainder@, do_the_funny),
    decreases remainder@.len(),
{
    if remainder.len() == 0 {
        return sum == limit;
    }
    let tail = slice_subrange(remainder, 1, remainder.len());
    assert(tail@ =~= remainder@.drop_first());
    match sum.checked_mul(remainder[0]) {
        Some(multiply_res) => {
            if limit >= multiply_res && calculate_recursively(
                multiply_res,
                limit,
                tail,
                do_the_funny,
            ) {
                return true;
            }
        },
        None => {},
    }
    match sum.checked_add(remainder[0]) {
        Some(addition_res) => {
            if limit >= addition_res && calculate_recursively(
                addition_res,
                limit,
                tail,
                do_the_funny,
            ) {
                return true;
            }
        },
        None => {},
    }
    if do_the_funny {
        match join(sum, remainder[0]) {
            Some(funny_number) => {
                if limit >= funny_number && calculate_recursively(
                    funny_number,
                    limit,
                    tail,
                    do_the_funny,
                ) {
                    return true;
                }
            },
            None => {},
        }
    }
    false
}

/// The equation on `line`: the digits of the test value, a colon, a space,
/// and the digits of the numbers with one space between each two.  What
/// follows the last number counts for nothing.  `None` where the line does
/// not start so, or where one of the numbers is above `usize::MAX`.
pub open spec fn equation_on(line: Seq<u8>) -> Option<(usize, Seq<usize>)> {
    let k = run(line, Class::Digit, true) as int;
    let words = digit_runs(line.skip(k + 2), 32);
    if 0 < k && k + 2 <= line.len() && number(line.take(k)) is Ok && line[k] == 58 && line[k + 1]
        == 32 && words.len() > 0 && good_numbers(words, words.len()).len() == words.len() {
        Some((number(line.take(k))->Ok_0, good_numbers(words, words.len())))
    } else {
        None
    }
}

/// Reads the equation on one line.
pub fn parse_input_line(input: &[u8]) -> (r: Option<CalibrationEquation>)
    ensures
        match equation_on(input@) {
            Some((sum, vectors)) => r matches Some(equation) && equation.calibration_sum == sum
                && equation.calibration_vectors@ == vectors,
            None => r is None,
        },
{
    let k = scan(input, 0, Class::Digit, true);
    assert(input@.skip(0) =~= input@);
    if k == 0 || input.len() - k < 2 {
        return None;
    }
    assert(input@.subrange(0, k as int) =~= input@.take(k as int));
    let calibration_sum = match from_num_str(slice_subrange(input, 0, k)) {
        Ok(sum) => sum,
        Err(_) => {
            return None;
        },
    };
    if input[k] != 58 || input[k + 1] != 32 {
        return None;
    }
    let words = read_digit_runs(input, k + 2, 32);
    if words.len() == 0 {
        return None;
    }
    let calibration_vectors = read_numbers(&words);
    if calibration_vectors.len() != words.len() {
        return None;
    }
    Some(CalibrationEquation { calibration_sum, calibration_vectors })
}

/// The sum of the test values of those among the first `n` of `rows`
/// whose numbers can give their test value, or what is wrong with the first
/// row that is no equation or that brings the sum above `usize::MAX`.
pub open spec fn calibration_total(rows: Seq<Seq<u8>>, funny: bool, n: nat) -> Result<
    usize,
    CalibrationError,
>
    decreases n,
{
    if n == 0 {
        Ok(0)
    } else {
        match calibration_total(rows, funny, (n - 1) as nat) {
            Err(e) => Err(e),
            Ok(sum) => match equation_on(rows[n - 1]) {
                None => Err(CalibrationError::BadLine { line: (n - 1) as usize }),
                Some((limit, vectors)) => if !reaches(0, limit as nat, vectors, funny) {
                    Ok(sum)
                } else if sum + limit > usize::MAX {
                    Err(CalibrationError::TooLarge { line: (n - 1) as usize })
                } else {
                    Ok((sum + limit) as usize)
                },
            },
        }
    }
}

/// Once the sum has failed, later rows change nothing.
pub proof fn lemma_total_fails(rows: Seq<Seq<u8>>, funny: bool, n: nat, m: nat)
    requires
        n <= m,
        calibration_total(rows, funny, n) is Err,
    ensures
        calibration_total(rows, funny, m) == calibration_total(rows, funny, n),
    decreases m,
{
    if n < m {
        lemma_total_fails(rows, funny, n, (m - 1) as nat);
    }
}

/// What the document gives: the total over all its lines.
pub open spec fn document_total(text: Seq<u8>, funny: bool) -> Result<usize, CalibrationError> {
    calibration_total(lines(text), funny, lines(text).len())
}

/// Sums the test values of the equations of `calibration_doc` that can be
/// made true, one equation on each line.
pub fn checked_solve(calibration_doc: &str, do_the_funny: bool) -> (r: Result<
    usize,
    CalibrationError,
>)
    ensures
        r == document_total(calibration_doc.spec_bytes(), do_the_funny),
{
    let rows = split_lines(calibration_doc.as_bytes());
    let mut sum: usize = 0;
    let mut i: usize = 0;
    while i < rows.len()
        invariant
            views(rows@) == lines(calibration_doc.spec_bytes()),
            i <= rows@.len(),
            calibration_total(views(rows@), do_the_funny, i as nat) == Ok::<
                usize,
                CalibrationError,
            >(sum),
        decreases rows@.len() - i,
    {
        assert(views(rows@)[i as int] == rows@[i as int]@);
        proof {
            if calibration_total(views(rows@), do_the_funny, (i + 1) as nat) is Err {
                lemma_total_fails(views(rows@), do_the_funny, (i + 1) as nat, rows@.len());
            }
        }
        let cal = match parse_input_line(rows[i].as_slice()) {
            Some(cal) => cal,
            None => {
                return Err(CalibrationError::BadLine { line: i });
            },
        };
        if calculate_recursively(
            0,
            cal.calibration_sum,
            cal.calibration_vectors.as_slice(),
            do_the_funny,
        ) {
            match sum.checked_add(cal.calibration_sum) {
                Some(s) => {
                    sum = s;
                },
                None => {
                    return Err(CalibrationError::TooLarge { line: i });
                },
            }
        }
        i = i + 1;
    }
    Ok(sum)
}

/// The total of `calibration_doc` with multiplication and addition.
pub fn solve_part_1(calibration_doc: &str) -> (r: usize)
    requires
        document_total(calibration_doc.spec_bytes(), false) is Ok,
    ensures
        Ok::<usize, CalibrationError>(r) == document_total(calibration_doc.spec_bytes(), false),
{
    match checked_solve(calibration_doc, false) {
        Ok(sum) => sum,
        Err(_) => unreached(),
    }
}

/// The total of `calibration_doc` with multiplication, addition and the
/// joining of digits.
pub fn solve_part_2(calibration_doc: &str) -> (r: usize)
    requires
        document_total(calibration_doc.spec_bytes(), true) is Ok,
    ensures
        Ok::<usize, CalibrationError>(r) == document_total(calibration_doc.spec_bytes(), true),
{
    match checked_solve(calibration_doc, true) {
        Ok(sum) => sum,
        Err(_) => unreached(),
    }
}

} // verus!
