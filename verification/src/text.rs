//! Byte-level text handling shared by the puzzles: classes of bytes, runs,
//! lines, fields and decimal numbers.

use vstd::prelude::*;
use vstd::slice::slice_subrange;

verus! {

/// A class of bytes that the texts are scanned for.
#[derive(Clone, Copy, Debug, PartialEq, Eq, Structural)]
pub enum Class {
    /// The decimal digits `0` to `9`.
    Digit,
    /// What is trimmed from the ends of a text: tab, line feed, vertical
    /// tab, form feed, carriage return and space.
    Blank,
    /// What separates fields: tab, line feed, form feed, carriage return
    /// and space.
    Gap,
    /// The space.
    Space,
    /// The line feed.
    LineFeed,
    /// The bytes that lines end with: line feed and carriage return.
    LineEnd,
    /// The letters `A` to `Z` and `a` to `z`.
    Letter,
}

impl Class {
    /// The byte `b` belongs to the class.
    pub open spec fn holds(self, b: u8) -> bool {
        match self {
            Class::Digit => 48 <= b <= 57,
            Class::Blank => 9 <= b <= 13 || b == 32,
            Class::Gap => b == 9 || b == 10 || b == 12 || b == 13 || b == 32,
            Class::Space => b == 32,
            Class::LineFeed => b == 10,
            Class::LineEnd => b == 10 || b == 13,
            Class::Letter => 65 <= b <= 90 || 97 <= b <= 122,
        }
    }

    /// Tells whether the byte `b` belongs to the class.
    pub fn has(self, b: u8) -> (r: bool)
        ensures
            r == self.holds(b),
    {
        match self {
            Class::Digit => 48 <= b && b <= 57,
            Class::Blank => (9 <= b && b <= 13) || b == 32,
            Class::Gap => b == 9 || b == 10 || b == 12 || b == 13 || b == 32,
            Class::Space => b == 32,
            Class::LineFeed => b == 10,
            Class::LineEnd => b == 10 || b == 13,
            Class::Letter => (65 <= b && b <= 90) || (97 <= b && b <= 122),
        }
    }
}

/// Tells whether `c` is a decimal digit.
pub fn is_digit(c: u8) -> (r: bool)
    ensures
        r == Class::Digit.holds(c),
{
    Class::Digit.has(c)
}

/// The length of the longest prefix of `s` whose bytes all belong to
/// `class` (`wanted`), or all do not (`!wanted`).
pub open spec fn run(s: Seq<u8>, class: Class, wanted: bool) -> nat
    decreases s.len(),
{
    if s.len() == 0 || class.holds(s[0]) != wanted {
        0
    } else {
        1 + run(s.drop_first(), class, wanted)
    }
}

/// A run is in range, every byte of it is as wanted, and the byte after
/// it, if there is one, is not.
pub proof fn lemma_run(s: Seq<u8>, class: Class, wanted: bool)
    ensures
        run(s, class, wanted) <= s.len(),
        forall|j: int| 0 <= j < run(s, class, wanted) ==> class.holds(#[trigger] s[j]) == wanted,
        run(s, class, wanted) < s.len() ==> class.holds(s[run(s, class, wanted) as int])
            != wanted,
    decreases s.len(),
{
    if s.len() == 0 || class.holds(s[0]) != wanted {
    } else {
        lemma_run(s.drop_first(), class, wanted);
        assert forall|j: int| 0 <= j < run(s, class, wanted) implies class.holds(#[trigger] s[j])
            == wanted by {
            if j > 0 {
                assert(s[j] == s.drop_first()[j - 1]);
            }
        }
    }
}

/// A prefix whose bytes are all as wanted, followed by a byte that is not
/// or by the end, is the run.
pub proof fn lemma_run_is(s: Seq<u8>, class: Class, wanted: bool, k: int)
    requires
        0 <= k <= s.len(),
        forall|j: int| 0 <= j < k ==> class.holds(#[trigger] s[j]) == wanted,
        k < s.len() ==> class.holds(s[k]) != wanted,
    ensures
        run(s, class, wanted) == k,
{
    lemma_run(s, class, wanted);
    let f = run(s, class, wanted) as int;
    if f < k {
        assert(class.holds(s[f]) == wanted);
    } else if k < f {
        assert(class.holds(s[k]) == wanted);
    }
}

/// Finds the end of the run that starts at `from`.
pub fn scan(text: &[u8], from: usize, class: Class, wanted: bool) -> (to: usize)
    requires
        from <= text@.len(),
    ensures
        from <= to <= text@.len(),
        to == from + run(text@.skip(from as int), class, wanted),
{
    let mut to: usize = from;
    while to < text.len() && class.has(text[to]) == wanted
        invariant
            from <= to <= text@.len(),
            forall|j: int| from <= j < to ==> class.holds(#[trigger] text@[j]) == wanted,
        decreases text@.len() - to,
    {
        to = to + 1;
    }
    proof {
        let rest = text@.skip(from as int);
        assert forall|j: int| 0 <= j < to - from implies class.holds(#[trigger] rest[j])
            == wanted by {
            assert(rest[j] == text@[from + j]);
        }
        lemma_run_is(rest, class, wanted, to - from);
    }
    to
}

/// `line` without the carriage return at its end, if it has one.
pub open spec fn chomp(line: Seq<u8>) -> Seq<u8> {
    if line.len() > 0 && line.last() == 13 {
        line.drop_last()
    } else {
        line
    }
}

/// The lines of `s`.  A line ends at a line feed, which is not part of it,
/// nor is a carriage return directly before that line feed.  What follows
/// the last line feed is a line too, unless it is empty.
pub open spec fn lines(s: Seq<u8>) -> Seq<Seq<u8>>
    decreases s.len(),
{
    if s.len() == 0 {
        Seq::empty()
    } else {
        let k = run(s, Class::LineFeed, false);
        if k < s.len() {
            seq![chomp(s.take(k as int))] + lines(s.skip(k as int + 1))
        } else {
            seq![s]
        }
    }
}

/// The views of the byte vectors in `rows`.
pub open spec fn views(rows: Seq<Vec<u8>>) -> Seq<Seq<u8>> {
    rows.map_values(|row: Vec<u8>| row@)
}

/// A copy of the bytes of `text` from `from` up to `to`.
pub fn copy_range(text: &[u8], from: usize, to: usize) -> (r: Vec<u8>)
    requires
        from <= to <= text@.len(),
    ensures
        r@ == text@.subrange(from as int, to as int),
{
    let mut r: Vec<u8> = Vec::new();
    let mut i: usize = from;
    while i < to
        invariant
            from <= i <= to <= text@.len(),
            r@ == text@.subrange(from as int, i as int),
        decreases to - i,
    {
        r.push(text[i]);
        i = i + 1;
        assert(r@ =~= text@.subrange(from as int, i as int));
    }
    r
}

/// Splits `text` into its lines.
pub fn split_lines(text: &[u8]) -> (r: Vec<Vec<u8>>)
    ensures
        views(r@) == lines(text@),
{
    let n = text.len();
    let mut out: Vec<Vec<u8>> = Vec::new();
    let mut start: usize = 0;
    assert(text@.skip(0) =~= text@);
    assert(views(out@) =~= Seq::empty());
    while start < n
        invariant
            n == text@.len(),
            start <= n,
            lines(text@) == views(out@) + lines(text@.skip(start as int)),
        decreases n - start,
    {
        let stop = scan(text, start, Class::LineFeed, false);
        let ghost rest = text@.skip(start as int);
        if stop < n {
            let end = if stop > start && text[stop - 1] == 13 {
                stop - 1
            } else {
                stop
            };
            let line = copy_range(text, start, end);
            proof {
                assert(rest.take(stop - start) =~= text@.subrange(start as int, stop as int));
                assert(rest.skip(stop - start + 1) =~= text@.skip(stop + 1));
                assert(chomp(text@.subrange(start as int, stop as int)) =~= line@);
                assert(views(out@.push(line)) =~= views(out@) + seq![line@]);
            }
            out.push(line);
            start = stop + 1;
        } else {
            let line = copy_range(text, start, n);
            proof {
                assert(rest =~= text@.subrange(start as int, n as int));
                assert(views(out@.push(line)) =~= views(out@) + seq![line@]);
                assert(lines(text@.skip(n as int)) =~= Seq::empty());
            }
            out.push(line);
            start = n;
        }
    }
    out
}

/// `s` without the blanks at its start.
pub open spec fn trimmed_start(s: Seq<u8>) -> Seq<u8> {
    s.skip(run(s, Class::Blank, true) as int)
}

/// `s` without the blanks at its end.
pub open spec fn trimmed_end(s: Seq<u8>) -> Seq<u8>
    decreases s.len(),
{
    if s.len() > 0 && Class::Blank.holds(s.last()) {
        trimmed_end(s.drop_last())
    } else {
        s
    }
}

/// `s` without the blanks at its two ends.
pub open spec fn trimmed(s: Seq<u8>) -> Seq<u8> {
    trimmed_end(trimmed_start(s))
}

/// The part of `text` that is left when the blanks at its two ends are
/// taken away.
pub fn trim(text: &[u8]) -> (r: &[u8])
    ensures
        r@ == trimmed(text@),
{
    let from = scan(text, 0, Class::Blank, true);
    assert(text@.skip(0) =~= text@);
    let mut to: usize = text.len();
    while to > from && Class::Blank.has(text[to - 1])
        invariant
            from <= to <= text@.len(),
            trimmed_end(text@.skip(from as int)) == trimmed_end(
                text@.subrange(from as int, to as int),
            ),
        decreases to,
    {
        assert(text@.subrange(from as int, to as int).drop_last() =~= text@.subrange(
            from as int,
            to - 1,
        ));
        to = to - 1;
    }
    assert(text@.skip(from as int) =~= text@.subrange(from as int, text@.len() as int));
    slice_subrange(text, from, to)
}

/// The number that the decimal digits `s` spell.
pub open spec fn digits_value(s: Seq<u8>) -> nat
    decreases s.len(),
{
    if s.len() == 0 {
        0
    } else {
        10 * digits_value(s.drop_last()) + (s.last() - 48) as nat
    }
}

/// Every byte of `s` is a decimal digit.
pub open spec fn all_digits(s: Seq<u8>) -> bool {
    forall|i: int| 0 <= i < s.len() ==> Class::Digit.holds(#[trigger] s[i])
}

/// Why a text is not a number that fits.
#[derive(Clone, Copy, Debug, PartialEq, Eq, Structural)]
pub enum NumberError {
    /// The text is empty.
    Empty,
    /// The text holds a byte that is no digit, or no digit at all.
    InvalidDigit,
    /// The digits spell a number above `usize::MAX`.
    TooLarge,
}

/// `s` without the plus sign that may stand before the digits.
pub open spec fn unsigned(s: Seq<u8>) -> Seq<u8> {
    if s.len() > 0 && s[0] == 43 {
        s.drop_first()
    } else {
        s
    }
}

/// The number that `s` spells in decimal digits, with or without a plus
/// sign before them, or why it spells none.
pub open spec fn number(s: Seq<u8>) -> Result<usize, NumberError> {
    if s.len() == 0 {
        Err(NumberError::Empty)
    } else if unsigned(s).len() == 0 || !all_digits(unsigned(s)) {
        Err(NumberError::InvalidDigit)
    } else if digits_value(unsigned(s)) > usize::MAX {
        Err(NumberError::TooLarge)
    } else {
        Ok(digits_value(unsigned(s)) as usize)
    }
}

/// The digits at the start of a number spell no more than all of them.
pub proof fn lemma_digits_value_grows(s: Seq<u8>, k: int)
    requires
        0 <= k <= s.len(),
        all_digits(s),
    ensures
        digits_value(s.take(k)) <= digits_value(s),
    decreases s.len(),
{
    if k < s.len() {
        let front = s.drop_last();
        assert(front.take(k) =~= s.take(k));
        assert(Class::Digit.holds(s[s.len() - 1]));
        assert forall|i: int| 0 <= i < front.len() implies Class::Digit.holds(
            #[trigger] front[i],
        ) by {
            assert(front[i] == s[i]);
        }
        lemma_digits_value_grows(front, k);
    } else {
        assert(s.take(k) =~= s);
    }
}

/// Reads a decimal number.
pub fn from_num_str(input: &[u8]) -> (r: Result<usize, NumberError>)
    ensures
        r == number(input@),
{
    if input.len() == 0 {
        return Err(NumberError::Empty);
    }
    let start: usize = if input[0] == 43 {
        1
    } else {
        0
    };
    let ghost digits = unsigned(input@);
    assert(digits =~= input@.skip(start as int));
    let end = scan(input, start, Class::Digit, true);
    proof {
        lemma_run(digits, Class::Digit, true);
    }
    if start == input.len() || end < input.len() {
        return Err(NumberError::InvalidDigit);
    }
    let mut value: usize = 0;
    let mut i: usize = start;
    while i < input.len()
        invariant
            start <= i <= input@.len(),
            digits == input@.skip(start as int),
            digits == unsigned(input@),
            digits.len() > 0,
            all_digits(digits),
            value == digits_value(digits.take(i - start)),
        decreases input@.len() - i,
    {
        assert(digits.take(i - start + 1).drop_last() =~= digits.take(i - start));
        assert(digits[i - start] == input@[i as int]);
        assert(Class::Digit.holds(digits[i - start]));
        let digit: usize = (input[i] - 48) as usize;
        let next = match value.checked_mul(10) {
            Some(tenfold) => tenfold.checked_add(digit),
            None => None,
        };
        match next {
            Some(v) => {
                value = v;
            },
            None => {
                proof {
                    let upto = digits.take(i - start + 1);
                    assert(upto.last() == input@[i as int]);
                    assert(digits_value(upto) == 10 * value + digit);
                    lemma_digits_value_grows(digits, i - start + 1);
                }
                return Err(NumberError::TooLarge);
            },
        }
        i = i + 1;
    }
    assert(digits.take(i - start) =~= digits);
    Ok(value)
}

/// The fields of `s`: the longest stretches of bytes that are no gaps.
pub open spec fn fields(s: Seq<u8>) -> Seq<Seq<u8>>
    decreases s.len(),
    via fields_decreases
{
    if s.len() == 0 {
        Seq::empty()
    } else if Class::Gap.holds(s[0]) {
        fields(s.drop_first())
    } else {
        let k = run(s, Class::Gap, false);
        seq![s.take(k as int)] + fields(s.skip(k as int))
    }
}

/// A field that starts with a byte that is no gap is not empty, so what
/// follows it is shorter than `s`.
#[via_fn]
proof fn fields_decreases(s: Seq<u8>) {
    lemma_run(s, Class::Gap, false);
}

/// Leading gaps hold no field.
pub proof fn lemma_fields_skip_gaps(s: Seq<u8>)
    ensures
        fields(s) == fields(s.skip(run(s, Class::Gap, true) as int)),
    decreases s.len(),
{
    if s.len() > 0 && Class::Gap.holds(s[0]) {
        lemma_fields_skip_gaps(s.drop_first());
        lemma_run(s.drop_first(), Class::Gap, true);
        assert(s.drop_first().skip(run(s.drop_first(), Class::Gap, true) as int) =~= s.skip(
            run(s, Class::Gap, true) as int,
        ));
    } else {
        assert(s.skip(0) =~= s);
    }
}

/// Where the first field of `text` from `from` on starts and ends, or
/// `None` where only gaps are left.
pub fn next_field(text: &[u8], from: usize) -> (r: Option<(usize, usize)>)
    requires
        from <= text@.len(),
    ensures
        match r {
            Some((start, end)) => {
                &&& from <= start < end <= text@.len()
                &&& fields(text@.skip(from as int)) == seq![
                    text@.subrange(start as int, end as int),
                ] + fields(text@.skip(end as int))
            },
            None => fields(text@.skip(from as int)) == Seq::<Seq<u8>>::empty(),
        },
{
    let start = scan(text, from, Class::Gap, true);
    proof {
        lemma_fields_skip_gaps(text@.skip(from as int));
        assert(text@.skip(from as int).skip(start - from) =~= text@.skip(start as int));
    }
    if start == text.len() {
        return None;
    }
    let end = scan(text, start, Class::Gap, false);
    proof {
        let rest = text@.skip(start as int);
        lemma_run(rest, Class::Gap, true);
        lemma_run(text@.skip(from as int), Class::Gap, true);
        assert(rest[0] == text@.skip(from as int)[start - from]);
        lemma_run(rest, Class::Gap, false);
        assert(rest.take(end - start) =~= text@.subrange(start as int, end as int));
        assert(rest.skip(end - start) =~= text@.skip(end as int));
    }
    Some((start, end))
}

/// The runs of digits at the start of `s`, each but the first behind
/// one byte `sep`.  The runs end where no digit stands, or where no `sep`
/// with a digit behind it follows.
pub open spec fn digit_runs(s: Seq<u8>, sep: u8) -> Seq<Seq<u8>>
    decreases s.len(),
{
    let k = run(s, Class::Digit, true) as int;
    if 0 < k {
        if k + 1 < s.len() && s[k] == sep && Class::Digit.holds(s[k + 1]) {
            seq![s.take(k)] + digit_runs(s.skip(k + 1), sep)
        } else {
            seq![s.take(k)]
        }
    } else {
        Seq::empty()
    }
}

/// The runs of digits of `text` from `from` on, each but the first behind
/// one byte `sep`.
pub fn read_digit_runs(text: &[u8], from: usize, sep: u8) -> (r: Vec<Vec<u8>>)
    requires
        from <= text@.len(),
    ensures
        views(r@) == digit_runs(text@.skip(from as int), sep),
{
    let mut out: Vec<Vec<u8>> = Vec::new();
    let mut pos: usize = from;
    assert(views(out@) =~= Seq::empty());
    loop
        invariant
            from <= pos <= text@.len(),
            digit_runs(text@.skip(from as int), sep) == views(out@) + digit_runs(
                text@.skip(pos as int),
                sep,
            ),
        decreases text@.len() - pos,
    {
        let ghost rest = text@.skip(pos as int);
        let end = scan(text, pos, Class::Digit, true);
        if end == pos {
            assert(views(out@) + Seq::<Seq<u8>>::empty() =~= views(out@));
            return out;
        }
        let word = copy_range(text, pos, end);
        proof {
            assert(rest.take(end - pos) =~= word@);
            assert(views(out@.push(word)) =~= views(out@) + seq![word@]);
        }
        out.push(word);
        if end < text.len() && text[end] == sep && end + 1 < text.len() && Class::Digit.has(
            text[end + 1],
        ) {
            proof {
                assert(rest[end - pos] == text@[end as int]);
                assert(rest[end - pos + 1] == text@[end + 1]);
                assert(rest.skip(end - pos + 1) =~= text@.skip(end + 1));
            }
            pos = end + 1;
        } else {
            proof {
                if end + 1 < text@.len() {
                    assert(rest[end - pos] == text@[end as int]);
                    assert(rest[end - pos + 1] == text@[end + 1]);
                }
            }
            return out;
        }
    }
}

/// The numbers that the fields before the first faulty one spell, among
/// the first `n` of `fs`.
pub open spec fn good_numbers(fs: Seq<Seq<u8>>, n: nat) -> Seq<usize>
    decreases n,
{
    if n == 0 {
        Seq::empty()
    } else {
        let before = good_numbers(fs, (n - 1) as nat);
        match number(fs[n - 1]) {
            Ok(x) => if before.len() == n - 1 {
                before.push(x)
            } else {
                before
            },
            Err(_) => before,
        }
    }
}

/// After the first faulty field no number is read.
pub proof fn lemma_good_numbers_stop(fs: Seq<Seq<u8>>, n: nat, m: nat)
    requires
        n <= m,
        good_numbers(fs, n).len() < n,
    ensures
        good_numbers(fs, m) == good_numbers(fs, n),
    decreases m,
{
    if n < m {
        lemma_good_numbers_stop(fs, n, (m - 1) as nat);
    }
}

/// Reads the numbers that `words` spell, up to the first word that
/// spells none.
pub fn read_numbers(words: &Vec<Vec<u8>>) -> (r: Vec<usize>)
    ensures
        r@ == good_numbers(views(words@), words@.len()),
{
    let mut out: Vec<usize> = Vec::new();
    let mut i: usize = 0;
    while i < words.len()
        invariant
            i <= words@.len(),
            out@ == good_numbers(views(words@), i as nat),
            out@.len() == i,
        decreases words@.len() - i,
    {
        assert(views(words@)[i as int] == words@[i as int]@);
        match from_num_str(words[i].as_slice()) {
            Ok(x) => {
                out.push(x);
            },
            Err(_) => {
                proof {
                    lemma_good_numbers_stop(views(words@), (i + 1) as nat, words@.len());
                }
                return out;
            },
        }
        i = i + 1;
    }
    out
}

/// The bytes of `word` stand at the start of `s`.
pub open spec fn starts_with(s: Seq<u8>, word: Seq<u8>) -> bool {
    word.len() <= s.len() && s.take(word.len() as int) == word
}

/// Looks for `word` at the start of `input`.  Gives what follows it and
/// the part of `input` that is `word`.
pub fn tag<'a>(input: &'a [u8], word: &[u8]) -> (r: Option<(&'a [u8], &'a [u8])>)
    ensures
        match r {
            Some((rest, found)) => starts_with(input@, word@) && rest@ == input@.skip(
                word@.len() as int,
            ) && found@ == word@,
            None => !starts_with(input@, word@),
        },
{
    if input.len() < word.len() {
        return None;
    }
    let mut i: usize = 0;
    while i < word.len()
        invariant
            i <= word@.len() <= input@.len(),
            forall|j: int| 0 <= j < i ==> input@[j] == word@[j],
        decreases word@.len() - i,
    {
        if input[i] != word[i] {
            assert(input@.take(word@.len() as int)[i as int] != word@[i as int]);
            return None;
        }
        i = i + 1;
    }
    assert(input@.take(word@.len() as int) =~= word@);
    assert(input@.subrange(0, word@.len() as int) =~= input@.take(word@.len() as int));
    assert(input@.subrange(word@.len() as int, input@.len() as int) =~= input@.skip(
        word@.len() as int,
    ));
    Some((slice_subrange(input, word.len(), input.len()), slice_subrange(input, 0, word.len())))
}

/// The number at the start of `s` and how many digits spell it: as many
/// digits as stand there, and at least one.  `None` where no digit stands
/// there or the number is above `usize::MAX`.
pub open spec fn number_at(s: Seq<u8>) -> Option<(usize, int)> {
    let k = run(s, Class::Digit, true) as int;
    match number(s.take(k)) {
        Ok(x) => if k > 0 {
            Some((x, k))
        } else {
            None
        },
        Err(_) => None,
    }
}

/// Reads the number at the start of `input`.  Gives what follows it and
/// the number.
pub fn parse_number(input: &[u8]) -> (r: Option<(&[u8], usize)>)
    ensures
        match number_at(input@) {
            Some((x, k)) => {
                &&& k <= input@.len()
                &&& r matches Some((rest, value)) && value == x && rest@ == input@.skip(k)
            },
            None => r is None,
        },
{
    let k = scan(input, 0, Class::Digit, true);
    assert(input@.skip(0) =~= input@);
    assert(input@.subrange(0, k as int) =~= input@.take(k as int));
    assert(input@.subrange(k as int, input@.len() as int) =~= input@.skip(k as int));
    if k == 0 {
        return None;
    }
    match from_num_str(slice_subrange(input, 0, k)) {
        Ok(x) => Some((slice_subrange(input, k, input.len()), x)),
        Err(_) => None,
    }
}

/// Reads the byte `b` at the start of `input` and gives what follows it.
pub fn parse_byte(input: &[u8], b: u8) -> (r: Option<&[u8]>)
    ensures
        match r {
            Some(rest) => input@.len() > 0 && input@[0] == b && rest@ == input@.skip(1),
            None => !(input@.len() > 0 && input@[0] == b),
        },
{
    if input.len() > 0 && input[0] == b {
        assert(input@.subrange(1, input@.len() as int) =~= input@.skip(1));
        Some(slice_subrange(input, 1, input.len()))
    } else {
        None
    }
}

} // verus!
