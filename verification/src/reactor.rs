//! Reactor reports: rows of levels, and the rule that says which rows are
//! safe.

use crate::text::{
    fields, from_num_str, good_numbers, lemma_good_numbers_stop, lines, next_field, number,
    split_lines, views, NumberError,
};
use vstd::prelude::*;
use vstd::slice::slice_subrange;
use vstd::string::*;

verus! {

/// The largest step between two neighbouring levels of a safe row.
pub const MAXIMUM_MEASUREMENT_DELTA: usize = 3;

/// What the rule says of a row.
#[derive(Clone, Copy, Debug, PartialEq, Eq, Structural)]
pub enum ReactorSafety {
    Safe,
    UnsafeDelta,
    UnevenSlope,
    NoSlope,
}

/// The rows of a report, one after the other, each `row_size` levels long.
#[derive(Debug)]
pub struct Reactor {
    pub row_size: usize,
    pub data: Vec<usize>,
}

/// The field of a line that is no number, and why it is none.
#[derive(Clone, Copy, Debug, PartialEq, Eq, Structural)]
pub struct FieldError {
    pub field: usize,
    pub why: NumberError,
}

/// Why a text is no report.
#[derive(Clone, Copy, Debug, PartialEq, Eq, Structural)]
pub enum ReactorError {
    /// The text holds no line.
    Empty,
    /// A field of the line `line` is no number.
    BadNumber { line: usize, field: usize, why: NumberError },
    /// The line `line` holds `found` levels, the first line `expected`.
    RowSize { line: usize, found: usize, expected: usize },
}

/// What is wrong with the step from `prev` to `col` in a row that falls
/// (`falling`) or rises: it is too long, it is no step at all, or it goes
/// the other way.  `None` where nothing is wrong.
pub open spec fn step_fault(prev: usize, col: usize, falling: bool) -> Option<ReactorSafety> {
    if prev - col > MAXIMUM_MEASUREMENT_DELTA || col - prev > MAXIMUM_MEASUREMENT_DELTA {
        Some(ReactorSafety::UnsafeDelta)
    } else if prev == col {
        Some(ReactorSafety::NoSlope)
    } else if (prev > col) != falling {
        Some(ReactorSafety::UnevenSlope)
    } else {
        None
    }
}

/// The row falls at its first step.
pub open spec fn falls(row: Seq<usize>) -> bool {
    row.len() > 1 && row[0] > row[1]
}

/// What the rule says of the first `n` steps of `row`: the fault of the
/// first step that has one, or `Safe`.
pub open spec fn safety_of_steps(row: Seq<usize>, n: nat) -> ReactorSafety
    decreases n,
{
    if n == 0 {
        ReactorSafety::Safe
    } else {
        match safety_of_steps(row, (n - 1) as nat) {
            ReactorSafety::Safe => match step_fault(row[n - 1], row[n as int], falls(row)) {
                Some(fault) => fault,
                None => ReactorSafety::Safe,
            },
            fault => fault,
        }
    }
}

/// What the rule says of `row`.
pub open spec fn safety(row: Seq<usize>) -> ReactorSafety {
    if row.len() == 0 {
        ReactorSafety::Safe
    } else {
        safety_of_steps(row, (row.len() - 1) as nat)
    }
}

/// A row is safe exactly if all its steps go the way of the first and
/// none is longer than `MAXIMUM_MEASUREMENT_DELTA` or no step at all.
pub proof fn lemma_safe_steps(row: Seq<usize>, n: nat)
    requires
        n < row.len(),
    ensures
        safety_of_steps(row, n) == ReactorSafety::Safe <==> forall|i: int|
            1 <= i <= n ==> #[trigger] step_fault(row[i - 1], row[i], falls(row)) is None,
    decreases n,
{
    if n > 0 {
        lemma_safe_steps(row, (n - 1) as nat);
        if safety_of_steps(row, (n - 1) as nat) != ReactorSafety::Safe {
            let i = choose|i: int|
                1 <= i <= n - 1 && !(#[trigger] step_fault(row[i - 1], row[i], falls(row))
                    is None);
            assert(1 <= i <= n);
        }
    }
}

/// Once a step has a fault, later steps change nothing.
pub proof fn lemma_fault_stays(row: Seq<usize>, n: nat, m: nat)
    requires
        n <= m,
    ensures
        safety_of_steps(row, n) != ReactorSafety::Safe ==> safety_of_steps(row, m)
            == safety_of_steps(row, n),
    decreases m,
{
    if n < m {
        lemma_fault_stays(row, n, (m - 1) as nat);
    }
}

/// Says whether `reactor_row` is safe, and if it is not, what is wrong with
/// its first faulty step.
pub fn check_row_safety(reactor_row: &[usize]) -> (r: ReactorSafety)
    ensures
        r == safety(reactor_row@),
        r == ReactorSafety::Safe <==> forall|i: int|
            1 <= i < reactor_row@.len() ==> #[trigger] step_fault(
                reactor_row@[i - 1],
                reactor_row@[i],
                falls(reactor_row@),
            ) is None,
{
    if reactor_row.len() == 0 {
        return ReactorSafety::Safe;
    }
    proof {
        lemma_safe_steps(reactor_row@, (reactor_row@.len() - 1) as nat);
    }
    let sloping_up = reactor_row.len() > 1 && reactor_row[0] > reactor_row[1];
    let mut prev = reactor_row[0];
    let mut i: usize = 1;
    while i < reactor_row.len()
        invariant
            1 <= i <= reactor_row@.len(),
            prev == reactor_row@[i - 1],
            sloping_up == falls(reactor_row@),
            safety_of_steps(reactor_row@, (i - 1) as nat) == ReactorSafety::Safe,
        decreases reactor_row@.len() - i,
    {
        let col = reactor_row[i];
        let delta = if prev > col {
            prev - col
        } else {
            col - prev
        };
        proof {
            lemma_fault_stays(reactor_row@, i as nat, (reactor_row@.len() - 1) as nat);
        }
        if delta > MAXIMUM_MEASUREMENT_DELTA {
            return ReactorSafety::UnsafeDelta;
        }
        if prev == col {
            return ReactorSafety::NoSlope;
        }
        if (prev > col) != sloping_up {
            return ReactorSafety::UnevenSlope;
        }
        prev = col;
        i = i + 1;
    }
    ReactorSafety::Safe
}

/// What reading the fields `fs` gives: how many numbers there are, or the
/// first field that is none.
pub open spec fn line_outcome(fs: Seq<Seq<u8>>) -> Result<usize, FieldError> {
    let good = good_numbers(fs, fs.len());
    if good.len() == fs.len() {
        Ok(fs.len() as usize)
    } else {
        Err(FieldError { field: good.len() as usize, why: number(fs[good.len() as int])->Err_0 })
    }
}

/// Reads the numbers on `line` and appends them to `vec`, up to the first
/// field that is no number.  Returns how many numbers the line holds.
pub fn parse_reactor_line_into_vec(vec: &mut Vec<usize>, line: &[u8]) -> (r: Result<
    usize,
    FieldError,
>)
    ensures
        final(vec)@ == old(vec)@ + good_numbers(fields(line@), fields(line@).len()),
        r == line_outcome(fields(line@)),
        r matches Ok(count) ==> count == fields(line@).len(),
{
    let ghost fs = fields(line@);
    let ghost start = vec@;
    let mut count: usize = 0;
    let mut pos: usize = 0;
    assert(line@.skip(0) =~= line@);
    assert(fs.skip(0) =~= fs);
    assert(start + good_numbers(fs, 0) =~= start);
    loop
        invariant
            fs == fields(line@),
            start == old(vec)@,
            count <= pos <= line@.len(),
            count <= fs.len(),
            fs.skip(count as int) == fields(line@.skip(pos as int)),
            good_numbers(fs, count as nat).len() == count,
            vec@ == start + good_numbers(fs, count as nat),
        decreases line@.len() - pos,
    {
        match next_field(line, pos) {
            None => {
                assert(fs.skip(count as int).len() == 0);
                return Ok(count);
            },
            Some((from, to)) => {
                let word = slice_subrange(line, from, to);
                assert(fs.skip(count as int).len() == fs.len() - count);
                assert(fs[count as int] == fs.skip(count as int)[0]);
                assert(fs.skip(count as int + 1) =~= fs.skip(count as int).skip(1));
                assert((seq![word@] + fields(line@.skip(to as int))).skip(1) =~= fields(
                    line@.skip(to as int),
                ));
                match from_num_str(word) {
                    Ok(number) => {
                        vec.push(number);
                        assert(vec@ =~= start + good_numbers(fs, (count + 1) as nat));
                    },
                    Err(why) => {
                        proof {
                            lemma_good_numbers_stop(fs, (count + 1) as nat, fs.len());
                        }
                        return Err(FieldError { field: count, why });
                    },
                }
                count = count + 1;
                pos = to;
            },
        }
    }
}

/// The levels read from the first `n` of `rows`, or what is wrong with the
/// first row that holds a field that is no number, or that holds more or
/// fewer levels than the first row.
pub open spec fn levels(rows: Seq<Seq<u8>>, n: nat) -> Result<Seq<usize>, ReactorError>
    decreases n,
{
    if n == 0 {
        Ok(Seq::empty())
    } else {
        match levels(rows, (n - 1) as nat) {
            Err(e) => Err(e),
            Ok(data) => {
                let fs = fields(rows[n - 1]);
                match line_outcome(fs) {
                    Err(e) => Err(
                        ReactorError::BadNumber {
                            line: (n - 1) as usize,
                            field: e.field,
                            why: e.why,
                        },
                    ),
                    Ok(found) => if fs.len() != fields(rows[0]).len() {
                        Err(
                            ReactorError::RowSize {
                                line: (n - 1) as usize,
                                found,
                                expected: fields(rows[0]).len() as usize,
                            },
                        )
                    } else {
                        Ok(data + good_numbers(fs, fs.len()))
                    },
                }
            },
        }
    }
}

/// Once reading the rows has failed, later rows change nothing.
pub proof fn lemma_levels_fail(rows: Seq<Seq<u8>>, n: nat, m: nat)
    requires
        n <= m,
        levels(rows, n) is Err,
    ensures
        levels(rows, m) == levels(rows, n),
    decreases m,
{
    if n < m {
        lemma_levels_fail(rows, n, (m - 1) as nat);
    }
}

/// The report that `rows` spell out: the size of a row and the levels.
pub open spec fn report(rows: Seq<Seq<u8>>) -> Result<(usize, Seq<usize>), ReactorError> {
    if rows.len() == 0 {
        Err(ReactorError::Empty)
    } else {
        match levels(rows, rows.len()) {
            Err(e) => Err(e),
            Ok(data) => Ok((fields(rows[0]).len() as usize, data)),
        }
    }
}

impl Reactor {
    /// Reads a report: one row on each line, the levels of a row as
    /// decimal numbers with gaps between them, the same number of levels
    /// on every line.
    pub fn try_from_text(text: &str) -> (r: Result<Reactor, ReactorError>)
        ensures
            match report(lines(text.spec_bytes())) {
                Ok((row_size, data)) => r matches Ok(reactor) && reactor.row_size == row_size
                    && reactor.data@ == data,
                Err(e) => r matches Err(err) && err == e,
            },
    {
        let rows = split_lines(text.as_bytes());
        if rows.len() == 0 {
            return Err(ReactorError::Empty);
        }
        let mut data: Vec<usize> = Vec::new();
        assert(views(rows@)[0] == rows@[0]@);
        proof {
            reveal_with_fuel(levels, 2);
        }
        let row_size = match parse_reactor_line_into_vec(&mut data, rows[0].as_slice()) {
            Ok(count) => count,
            Err(e) => {
                proof {
                    lemma_levels_fail(views(rows@), 1, rows@.len());
                }
                return Err(ReactorError::BadNumber { line: 0, field: e.field, why: e.why });
            },
        };
        assert(data@ =~= Seq::<usize>::empty() + data@);
        let mut line: usize = 1;
        while line < rows.len()
            invariant
                views(rows@) == lines(text.spec_bytes()),
                1 <= line <= rows@.len(),
                row_size == fields(views(rows@)[0]).len(),
                levels(views(rows@), line as nat) == Ok::<Seq<usize>, ReactorError>(data@),
            decreases rows@.len() - line,
        {
            assert(views(rows@)[line as int] == rows@[line as int]@);
            match parse_reactor_line_into_vec(&mut data, rows[line].as_slice()) {
                Ok(count) => {
                    if count != row_size {
                        proof {
                            lemma_levels_fail(views(rows@), (line + 1) as nat, rows@.len());
                        }
                        return Err(
                            ReactorError::RowSize { line, found: count, expected: row_size },
                        );
                    }
                },
                Err(e) => {
                    proof {
                        lemma_levels_fail(views(rows@), (line + 1) as nat, rows@.len());
                    }
                    return Err(ReactorError::BadNumber { line, field: e.field, why: e.why });
                },
            }
            line = line + 1;
        }
        Ok(Reactor { row_size, data })
    }

    /// How many whole rows the report holds.
    pub open spec fn row_count(&self) -> nat {
        if self.row_size == 0 {
            0
        } else {
            self.data@.len() / (self.row_size as nat)
        }
    }

    /// The levels of row `i`.
    pub open spec fn row_at(&self, i: int) -> Seq<usize> {
        self.data@.subrange(i * self.row_size, (i + 1) * self.row_size)
    }

    /// How many whole rows the report holds.
    pub fn rows(&self) -> (n: usize)
        ensures
            n == self.row_count(),
    {
        if self.row_size == 0 {
            0
        } else {
            self.data.len() / self.row_size
        }
    }

    /// The levels of row `i`.
    pub fn row(&self, i: usize) -> (r: &[usize])
        requires
            i < self.row_count(),
        ensures
            r@ == self.row_at(i as int),
    {
        proof {
            assert(self.data@.len() == self.data.len());
            lemma_row_in_range(self.data@.len(), self.row_size as nat, i as nat);
        }
        slice_subrange(self.data.as_slice(), i * self.row_size, (i + 1) * self.row_size)
    }
}

/// A row before the last whole one ends inside the data.
pub proof fn lemma_row_in_range(len: nat, size: nat, i: nat)
    requires
        size > 0,
        i < len / size,
    ensures
        0 <= i * size <= (i + 1) * size <= len,
{
    let whole = len / size;
    assert(size * whole <= len) by (nonlinear_arith)
        requires
            size > 0,
            whole == len / size,
    ;
    assert((i + 1) * size <= size * whole) by (nonlinear_arith)
        requires
            i + 1 <= whole,
    ;
    assert(0 <= i * size <= (i + 1) * size) by (nonlinear_arith);
}

/// How many of the first `n` rows of `reactor` are safe.
pub open spec fn safe_rows(reactor: &Reactor, n: nat) -> nat
    decreases n,
{
    if n == 0 {
        0
    } else {
        safe_rows(reactor, (n - 1) as nat) + if safety(reactor.row_at(n - 1))
            == ReactorSafety::Safe {
            1nat
        } else {
            0nat
        }
    }
}

/// Counts the safe rows of `reactor`.
pub fn count_safe_rows(reactor: &Reactor) -> (count: usize)
    ensures
        count == safe_rows(reactor, reactor.row_count()),
{
    let rows = reactor.rows();
    let mut count: usize = 0;
    let mut i: usize = 0;
    while i < rows
        invariant
            rows == reactor.row_count(),
            i <= rows,
            count <= i,
            count == safe_rows(reactor, i as nat),
        decreases rows - i,
    {
        if check_row_safety(reactor.row(i)) == ReactorSafety::Safe {
            count = count + 1;
        }
        i = i + 1;
    }
    count
}

} // verus!
