//! A word search: how often a word stands in a grid of letters, along the
//! rows, the columns and the diagonals, and how often it makes a cross.

use crate::text::{lines, run, scan, split_lines, views, Class};
use vstd::prelude::*;
use vstd::string::*;

verus! {

/// Why a puzzle cannot be searched.
#[derive(Clone, Copy, Debug, PartialEq, Eq, Structural)]
pub enum PuzzleError {
    /// The puzzle holds no line.
    NoLine,
    /// The puzzle holds no line end.
    NoLineEnd,
    /// The word stands in the puzzle more than `usize::MAX` times.
    TooMany,
}

/// The way a word runs from its first letter.
#[derive(Clone, Copy, Debug, PartialEq, Eq, Structural)]
pub enum Heading {
    /// Along the row, to the right.
    Across,
    /// Down the column.
    Down,
    /// Down and to the right.
    Falling,
    /// Down and to the left.
    Rising,
}

/// The place of letter `k` of a word that starts at `(row, col)` and runs
/// along `heading`.
pub open spec fn place(row: int, col: int, heading: Heading, k: int) -> (int, int) {
    match heading {
        Heading::Across => (row, col + k),
        Heading::Down => (row + k, col),
        Heading::Falling => (row + k, col + k),
        Heading::Rising => (row + k, col - k),
    }
}

/// All `len` places from `(row, col)` along `heading` are places of
/// `rows`.
pub open spec fn in_reach(
    rows: Seq<Seq<u8>>,
    row: int,
    col: int,
    heading: Heading,
    len: int,
) -> bool {
    forall|k: int|
        0 <= k < len ==> {
            let p = #[trigger] place(row, col, heading, k);
            0 <= p.0 < rows.len() && 0 <= p.1 < rows[p.0].len()
        }
}

/// From `(row, col)` along `heading`, `rows` hold the letters of `word`.
pub open spec fn reads(
    rows: Seq<Seq<u8>>,
    row: int,
    col: int,
    heading: Heading,
    word: Seq<u8>,
) -> bool {
    forall|k: int|
        0 <= k < word.len() ==> {
            let p = #[trigger] place(row, col, heading, k);
            rows[p.0][p.1] == word[k]
        }
}

/// From `(row, col)` along `heading`, `rows` hold `word`, forwards or
/// backwards.
pub open spec fn hit(
    rows: Seq<Seq<u8>>,
    row: int,
    col: int,
    heading: Heading,
    word: Seq<u8>,
) -> bool {
    reads(rows, row, col, heading, word) || reads(rows, row, col, heading, word.reverse())
}

/// Tells whether `word` stands at `(row, col)` along `heading`, forwards or
/// backwards.
pub fn found(
    rows: &Vec<Vec<u8>>,
    row: usize,
    col: usize,
    heading: Heading,
    word: &[u8],
) -> (r: bool)
    requires
        in_reach(views(rows@), row as int, col as int, heading, word@.len() as int),
    ensures
        r == hit(views(rows@), row as int, col as int, heading, word@),
{
    let n = word.len();
    let mut forwards = true;
    let mut backwards = true;
    let mut k: usize = 0;
    while k < n
        invariant
            k <= n,
            n == word@.len(),
            in_reach(views(rows@), row as int, col as int, heading, n as int),
            forwards == forall|j: int|
                0 <= j < k ==> {
                    let p = #[trigger] place(row as int, col as int, heading, j);
                    views(rows@)[p.0][p.1] == word@[j]
                },
            backwards == forall|j: int|
                0 <= j < k ==> {
                    let p = #[trigger] place(row as int, col as int, heading, j);
                    views(rows@)[p.0][p.1] == word@.reverse()[j]
                },
        decreases n - k,
    {
        let ghost p = place(row as int, col as int, heading, k as int);
        assert(0 <= p.0 < rows@.len() && 0 <= p.1 < views(rows@)[p.0].len());
        assert(views(rows@)[p.0] == rows@[p.0]@);
        assert(rows@[p.0]@.len() == rows@[p.0].len() && rows@.len() == rows.len());
        let (r, c) = match heading {
            Heading::Across => (row, col + k),
            Heading::Down => (row + k, col),
            Heading::Falling => (row + k, col + k),
            Heading::Rising => (row + k, col - k),
        };
        let letter = rows[r][c];
        if letter != word[k] {
            forwards = false;
        }
        if letter != word[n - 1 - k] {
            backwards = false;
        }
        k = k + 1;
    }
    forwards || backwards
}

/// How many of the four headings hold `word` from `(row, col)`, forwards or
/// backwards, where `rows` are `width` wide: each heading counts only where
/// the word has room.
pub open spec fn hits_at(rows: Seq<Seq<u8>>, width: int, row: int, col: int, word: Seq<u8>) -> nat {
    let len = word.len() as int;
    let room_across = col + len <= width;
    let room_down = row + len <= rows.len();
    let room_back = col - len + 1 >= 0;
    (if room_across && hit(rows, row, col, Heading::Across, word) {
        1nat
    } else {
        0nat
    }) + (if room_down && hit(rows, row, col, Heading::Down, word) {
        1nat
    } else {
        0nat
    }) + (if room_down && room_across && hit(rows, row, col, Heading::Falling, word) {
        1nat
    } else {
        0nat
    }) + (if room_down && room_back && hit(rows, row, col, Heading::Rising, word) {
        1nat
    } else {
        0nat
    })
}

/// The hits that start in the first `n` columns of row `row`.
pub open spec fn row_hits(rows: Seq<Seq<u8>>, width: int, row: int, word: Seq<u8>, n: nat) -> nat
    decreases n,
{
    if n == 0 {
        0
    } else {
        row_hits(rows, width, row, word, (n - 1) as nat) + hits_at(rows, width, row, n - 1, word)
    }
}

/// The hits that start in the first `n` rows.
pub open spec fn grid_hits(rows: Seq<Seq<u8>>, width: int, word: Seq<u8>, n: nat) -> nat
    decreases n,
{
    if n == 0 {
        0
    } else {
        grid_hits(rows, width, word, (n - 1) as nat) + row_hits(
            rows,
            width,
            n - 1,
            word,
            width as nat,
        )
    }
}

/// More columns hold no fewer hits.
pub proof fn lemma_row_hits_grow(
    rows: Seq<Seq<u8>>,
    width: int,
    row: int,
    word: Seq<u8>,
    n: nat,
    m: nat,
)
    requires
        n <= m,
    ensures
        row_hits(rows, width, row, word, n) <= row_hits(rows, width, row, word, m),
    decreases m,
{
    if n < m {
        lemma_row_hits_grow(rows, width, row, word, n, (m - 1) as nat);
    }
}

/// More rows hold no fewer hits.
pub proof fn lemma_grid_hits_grow(rows: Seq<Seq<u8>>, width: int, word: Seq<u8>, n: nat, m: nat)
    requires
        n <= m,
    ensures
        grid_hits(rows, width, word, n) <= grid_hits(rows, width, word, m),
    decreases m,
{
    if n < m {
        lemma_grid_hits_grow(rows, width, word, n, (m - 1) as nat);
    }
}

/// How wide the puzzle `text` is: as many bytes as stand before its first
/// line end.
pub open spec fn line_width(text: Seq<u8>) -> nat {
    run(text, Class::LineEnd, false)
}

/// The word fits the puzzle: it has a letter, the puzzle is as wide and as
/// high as the word is long, and no line is shorter than the puzzle is
/// wide.
pub open spec fn word_fits(text: Seq<u8>, word: Seq<u8>) -> bool {
    let rows = lines(text);
    &&& 0 < word.len() <= line_width(text)
    &&& word.len() <= rows.len()
    &&& forall|i: int| 0 <= i < rows.len() ==> line_width(text) <= (#[trigger] rows[i]).len()
}

/// How often `word` stands in the puzzle `text`.
pub open spec fn hits_in(text: Seq<u8>, word: Seq<u8>) -> nat {
    grid_hits(lines(text), line_width(text) as int, word, lines(text).len())
}

/// Tells whether `search` fits `puzzle`, as `solve_part_1` asks.
pub fn fits_part_1(puzzle: &str, search: &str) -> (r: bool)
    ensures
        r == (line_width(puzzle.spec_bytes()) < puzzle.spec_bytes().len() && word_fits(
            puzzle.spec_bytes(),
            search.spec_bytes(),
        )),
{
    let text = puzzle.as_bytes();
    let word = search.as_bytes();
    let width = scan(text, 0, Class::LineEnd, false);
    assert(text@.skip(0) =~= text@);
    if width >= text.len() {
        return false;
    }
    let rows = split_lines(text);
    if word.len() == 0 || word.len() > width || word.len() > rows.len() {
        return false;
    }
    let mut i: usize = 0;
    while i < rows.len()
        invariant
            views(rows@) == lines(text@),
            text@ == puzzle.spec_bytes(),
            width == line_width(text@),
            word@ == search.spec_bytes(),
            0 < word@.len() <= width,
            word@.len() <= rows@.len(),
            width < text@.len(),
            i <= rows@.len(),
            forall|j: int| 0 <= j < i ==> width <= (#[trigger] views(rows@)[j]).len(),
        decreases rows@.len() - i,
    {
        assert(views(rows@)[i as int] == rows@[i as int]@);
        if rows[i].len() < width {
            assert(lines(text@)[i as int].len() < width);
            return false;
        }
        i = i + 1;
    }
    true
}

/// Counts how often `search` stands in `puzzle`, along the rows, the
/// columns and the two diagonals, forwards or backwards.
pub fn solve_part_1(puzzle: &str, search: &str) -> (r: Result<usize, PuzzleError>)
    requires
        line_width(puzzle.spec_bytes()) < puzzle.spec_bytes().len() ==> word_fits(
            puzzle.spec_bytes(),
            search.spec_bytes(),
        ),
    ensures
        r == if line_width(puzzle.spec_bytes()) >= puzzle.spec_bytes().len() {
            Err::<usize, PuzzleError>(PuzzleError::NoLineEnd)
        } else if hits_in(puzzle.spec_bytes(), search.spec_bytes()) > usize::MAX {
            Err(PuzzleError::TooMany)
        } else {
            Ok(hits_in(puzzle.spec_bytes(), search.spec_bytes()) as usize)
        },
{
    let text = puzzle.as_bytes();
    let word = search.as_bytes();
    let puzzle_width = scan(text, 0, Class::LineEnd, false);
    assert(text@.skip(0) =~= text@);
    if puzzle_width >= text.len() {
        return Err(PuzzleError::NoLineEnd);
    }
    let puzzle_lines = split_lines(text);
    let word_len = word.len();
    let ghost rows = views(puzzle_lines@);
    let ghost total = grid_hits(rows, puzzle_width as int, word@, rows.len());
    let mut word_count: usize = 0;
    let mut row: usize = 0;
    while row < puzzle_lines.len()
        invariant
            rows == views(puzzle_lines@),
            row <= rows.len(),
            0 < word_len <= puzzle_width,
            word_len == word@.len(),
            word_len <= rows.len(),
            forall|i: int| 0 <= i < rows.len() ==> puzzle_width <= (#[trigger] rows[i]).len(),
            total == grid_hits(rows, puzzle_width as int, word@, rows.len()),
            total == hits_in(puzzle.spec_bytes(), search.spec_bytes()),
            puzzle_width < puzzle.spec_bytes().len(),
            puzzle_width == line_width(puzzle.spec_bytes()),
            word_count == grid_hits(rows, puzzle_width as int, word@, row as nat),
        decreases rows.len() - row,
    {
        let ghost above = word_count;
        let room_down = puzzle_lines.len() - row >= word_len;
        let mut col: usize = 0;
        while col < puzzle_width
            invariant
                rows == views(puzzle_lines@),
                row < rows.len(),
                col <= puzzle_width,
                0 < word_len <= puzzle_width,
                word_len == word@.len(),
                room_down == (row + word_len <= rows.len()),
                forall|i: int| 0 <= i < rows.len() ==> puzzle_width <= (#[trigger] rows[i]).len(),
                total == grid_hits(rows, puzzle_width as int, word@, rows.len()),
                total == hits_in(puzzle.spec_bytes(), search.spec_bytes()),
                puzzle_width < puzzle.spec_bytes().len(),
                puzzle_width == line_width(puzzle.spec_bytes()),
                above == grid_hits(rows, puzzle_width as int, word@, row as nat),
                word_count == above + row_hits(
                    rows,
                    puzzle_width as int,
                    row as int,
                    word@,
                    col as nat,
                ),
            decreases puzzle_width - col,
        {
            proof {
                lemma_row_hits_grow(
                    rows,
                    puzzle_width as int,
                    row as int,
                    word@,
                    (col + 1) as nat,
                    puzzle_width as nat,
                );
                lemma_grid_hits_grow(
                    rows,
                    puzzle_width as int,
                    word@,
                    (row + 1) as nat,
                    rows.len(),
                );
            }
            let room_across = puzzle_width - col >= word_len;
            let room_back = col + 1 >= word_len;
            let mut here: usize = 0;
            if room_across && found(&puzzle_lines, row, col, Heading::Across, word) {
                here = here + 1;
            }
            if room_down && found(&puzzle_lines, row, col, Heading::Down, word) {
                here = here + 1;
            }
            if room_down && room_across && found(
                &puzzle_lines,
                row,
                col,
                Heading::Falling,
                word,
            ) {
                here = here + 1;
            }
            if room_down && room_back && found(&puzzle_lines, row, col, Heading::Rising, word) {
                here = here + 1;
            }
            word_count = match word_count.checked_add(here) {
                Some(sum) => sum,
                None => {
                    return Err(PuzzleError::TooMany);
                },
            };
            col = col + 1;
        }
        row = row + 1;
    }
    Ok(word_count)
}

/// At the places `start + offsets[x]` the bytes hold the letters of
/// `search`, one for each `x`.
pub open spec fn spelled(bytes: Seq<u8>, start: int, offsets: Seq<usize>, search: Seq<u8>) -> bool {
    forall|x: int| 0 <= x < search.len() ==> bytes[start + offsets[x]] == #[trigger] search[x]
}

/// Tells whether the bytes at `start + offsets[x]` are the letters of
/// `search`.
pub fn byte_matcher(bytes: &[u8], start: usize, offsets: &[usize], search: &[u8]) -> (r: bool)
    requires
        search@.len() <= offsets@.len(),
        forall|x: int| 0 <= x < search@.len() ==> start + #[trigger] offsets@[x] < bytes@.len(),
    ensures
        r == spelled(bytes@, start as int, offsets@, search@),
{
    let mut x: usize = 0;
    while x < search.len()
        invariant
            x <= search@.len() <= offsets@.len(),
            forall|x: int| 0 <= x < search@.len() ==> start + #[trigger] offsets@[x] < bytes@.len(),
            forall|y: int| 0 <= y < x ==> bytes@[start + offsets@[y]] == #[trigger] search@[y],
        decreases search@.len() - x,
    {
        assert(start + offsets@[x as int] < bytes@.len());
        assert(bytes@.len() == bytes.len());
        if bytes[start + offsets[x]] != search[x] {
            return false;
        }
        x = x + 1;
    }
    true
}

/// The letters among the first `n` bytes of `s`, in their order.
pub open spec fn letters(s: Seq<u8>, n: nat) -> Seq<u8>
    decreases n,
{
    if n == 0 {
        Seq::empty()
    } else if Class::Letter.holds(s[n - 1]) {
        letters(s, (n - 1) as nat).push(s[n - 1])
    } else {
        letters(s, (n - 1) as nat)
    }
}

/// How many line feeds stand among the first `n` bytes of `s`.
pub open spec fn line_feeds(s: Seq<u8>, n: nat) -> nat
    decreases n,
{
    if n == 0 {
        0
    } else {
        line_feeds(s, (n - 1) as nat) + if s[n - 1] == 10 {
            1nat
        } else {
            0nat
        }
    }
}

/// The offsets of the places down and to the right, for a word of `len`
/// letters in rows that are `width` wide.
pub open spec fn falling_offsets(width: int, len: int) -> Seq<usize> {
    Seq::new(len as nat, |k: int| (k * width + k) as usize)
}

/// The offsets of the places down and to the left, from the right end of a
/// box that is `len` wide.
pub open spec fn rising_offsets(width: int, len: int) -> Seq<usize> {
    Seq::new(len as nat, |k: int| (k * width + (len - k) - 1) as usize)
}

/// The box that starts at `start` holds a cross of `word`: of the four
/// ways to read a diagonal, the word stands along exactly two.
pub open spec fn cross_at(bytes: Seq<u8>, width: int, start: int, word: Seq<u8>) -> bool {
    let falling = falling_offsets(width, word.len() as int);
    let rising = rising_offsets(width, word.len() as int);
    (if spelled(bytes, start, falling, word) {
        1int
    } else {
        0int
    }) + (if spelled(bytes, start, falling, word.reverse()) {
        1int
    } else {
        0int
    }) + (if spelled(bytes, start, rising, word) {
        1int
    } else {
        0int
    }) + (if spelled(bytes, start, rising, word.reverse()) {
        1int
    } else {
        0int
    }) == 2
}

/// The crosses whose box starts in row `row` at one of the first `n`
/// columns.
pub open spec fn row_crosses(bytes: Seq<u8>, width: int, row: int, word: Seq<u8>, n: nat) -> nat
    decreases n,
{
    if n == 0 {
        0
    } else {
        row_crosses(bytes, width, row, word, (n - 1) as nat) + if cross_at(
            bytes,
            width,
            row * width + n - 1,
            word,
        ) {
            1nat
        } else {
            0nat
        }
    }
}

/// The crosses whose box starts in one of the first `n` rows, at one of
/// the first `cols` columns.
pub open spec fn grid_crosses(bytes: Seq<u8>, width: int, word: Seq<u8>, cols: nat, n: nat) -> nat
    decreases n,
{
    if n == 0 {
        0
    } else {
        grid_crosses(bytes, width, word, cols, (n - 1) as nat) + row_crosses(
            bytes,
            width,
            n - 1,
            word,
            cols,
        )
    }
}

/// How wide the puzzle is for the crosses: as long as its first line.
pub open spec fn box_width(text: Seq<u8>) -> nat {
    lines(text)[0].len()
}

/// How high the puzzle is for the crosses: as many rows as it holds line
/// feeds.
pub open spec fn box_height(text: Seq<u8>) -> nat {
    line_feeds(text, text.len())
}

/// The boxes of the word fit the puzzle: the puzzle is as wide and as high
/// as the word is long, and it holds a letter for every place of its
/// rows.
pub open spec fn boxes_fit(text: Seq<u8>, word: Seq<u8>) -> bool {
    &&& word.len() <= box_width(text)
    &&& word.len() <= box_height(text)
    &&& box_width(text) * box_height(text) <= letters(text, text.len()).len()
}

/// How many crosses of `word` the puzzle `text` holds.
pub open spec fn cross_count(text: Seq<u8>, word: Seq<u8>) -> nat {
    if word.len() == 0 {
        0
    } else {
        grid_crosses(
            letters(text, text.len()),
            box_width(text) as int,
            word,
            (box_width(text) - word.len() + 1) as nat,
            (box_height(text) - word.len() + 1) as nat,
        )
    }
}

/// The letters of `text`.
pub fn read_letters(text: &[u8]) -> (r: Vec<u8>)
    ensures
        r@ == letters(text@, text@.len()),
{
    let mut out: Vec<u8> = Vec::new();
    let mut i: usize = 0;
    while i < text.len()
        invariant
            i <= text@.len(),
            out@ == letters(text@, i as nat),
        decreases text@.len() - i,
    {
        if Class::Letter.has(text[i]) {
            out.push(text[i]);
        }
        i = i + 1;
    }
    out
}

/// How many line feeds `text` holds.
pub fn count_line_feeds(text: &[u8]) -> (r: usize)
    ensures
        r == line_feeds(text@, text@.len()),
{
    let mut count: usize = 0;
    let mut i: usize = 0;
    while i < text.len()
        invariant
            i <= text@.len(),
            count <= i,
            count == line_feeds(text@, i as nat),
        decreases text@.len() - i,
    {
        if text[i] == 10 {
            count = count + 1;
        }
        i = i + 1;
    }
    count
}

/// `word` with its letters in the opposite order.
pub fn reversed(word: &[u8]) -> (r: Vec<u8>)
    ensures
        r@ == word@.reverse(),
{
    let mut out: Vec<u8> = Vec::new();
    let mut i: usize = word.len();
    while i > 0
        invariant
            i <= word@.len(),
            out@.len() == word@.len() - i,
            forall|j: int| 0 <= j < out@.len() ==> out@[j] == word@[word@.len() - 1 - j],
        decreases i,
    {
        i = i - 1;
        out.push(word[i]);
    }
    assert(out@ =~= word@.reverse());
    out
}

/// Tells whether the boxes of `search` fit `puzzle`, as `solve_part_2`
/// asks.
pub fn fits_part_2(puzzle: &str, search: &str) -> (r: bool)
    ensures
        r == (lines(puzzle.spec_bytes()).len() > 0 && boxes_fit(
            puzzle.spec_bytes(),
            search.spec_bytes(),
        )),
{
    let text = puzzle.as_bytes();
    let word = search.as_bytes();
    let rows = split_lines(text);
    if rows.len() == 0 {
        return false;
    }
    assert(views(rows@)[0] == rows@[0]@);
    let width = rows[0].len();
    let height = count_line_feeds(text);
    let bytes = read_letters(text);
    if word.len() > width || word.len() > height {
        return false;
    }
    match width.checked_mul(height) {
        Some(cells) => cells <= bytes.len(),
        None => {
            assert(bytes@.len() == bytes.len());
            false
        },
    }
}

/// The places of a box stay inside the rows that the puzzle has letters
/// for.
proof fn lemma_box_in_range(width: int, height: int, len: int, row: int, col: int, k: int)
    requires
        0 < len <= width,
        len <= height,
        0 <= row <= height - len,
        0 <= col <= width - len,
        0 <= k < len,
    ensures
        0 <= row * width,
        0 <= k * width,
        row * width + col + k * width + k < width * height,
        row * width + col + k * width + (len - k) - 1 < width * height,
        row * width + width == (row + 1) * width,
{
    assert(0 <= row * width && 0 <= k * width && row * width + width == (row + 1) * width)
        by (nonlinear_arith)
        requires
            0 <= row,
            0 <= k,
            0 < width,
    ;
    assert((row + k) * width == row * width + k * width) by (nonlinear_arith);
    assert((row + k) * width + width <= width * height) by (nonlinear_arith)
        requires
            0 <= row + k < height,
            0 < width,
    ;
}

/// Counts the crosses of `search` in `puzzle`: the boxes in which the word
/// stands along both diagonals, forwards or backwards.
pub fn solve_part_2(puzzle: &str, search: &str) -> (r: Result<usize, PuzzleError>)
    requires
        lines(puzzle.spec_bytes()).len() > 0 && search.spec_bytes().len() > 0 ==> boxes_fit(
            puzzle.spec_bytes(),
            search.spec_bytes(),
        ),
    ensures
        r == if lines(puzzle.spec_bytes()).len() > 0 {
            Ok::<usize, PuzzleError>(
                cross_count(puzzle.spec_bytes(), search.spec_bytes()) as usize,
            )
        } else {
            Err(PuzzleError::NoLine)
        },
{
    let text = puzzle.as_bytes();
    let rows = split_lines(text);
    if rows.len() == 0 {
        return Err(PuzzleError::NoLine);
    }
    assert(views(rows@)[0] == rows@[0]@);
    let puzzle_width = rows[0].len();
    let puzzle_height = count_line_feeds(text);
    let puzzle_bytes = read_letters(text);
    let search_bytes = search.as_bytes();
    let inverse_search = reversed(search_bytes);
    let search_len = search_bytes.len();
    if search_len == 0 {
        return Ok(0);
    }
    assert(puzzle_bytes@.len() == puzzle_bytes.len());
    let ghost w = puzzle_width as int;
    let ghost h = puzzle_height as int;
    let ghost n = search_len as int;
    let mut map_1: Vec<usize> = Vec::new();
    let mut map_2: Vec<usize> = Vec::new();
    let mut letter_index: usize = 0;
    while letter_index < search_len
        invariant
            letter_index <= search_len,
            0 < n <= w,
            n <= h,
            w == puzzle_width,
            h == puzzle_height,
            n == search_len,
            w * h <= usize::MAX,
            map_1@ == falling_offsets(w, n).take(letter_index as int),
            map_2@ == rising_offsets(w, n).take(letter_index as int),
        decreases search_len - letter_index,
    {
        proof {
            lemma_box_in_range(w, h, n, 0, 0, letter_index as int);
        }
        let down = letter_index * puzzle_width;
        map_1.push(down + letter_index);
        map_2.push(down + (search_len - letter_index) - 1);
        letter_index = letter_index + 1;
        assert(map_1@ =~= falling_offsets(w, n).take(letter_index as int));
        assert(map_2@ =~= rising_offsets(w, n).take(letter_index as int));
    }
    assert(map_1@ =~= falling_offsets(w, n));
    assert(map_2@ =~= rising_offsets(w, n));
    let last_row = puzzle_height - search_len;
    let last_col = puzzle_width - search_len;
    let mut matches: usize = 0;
    let mut row: usize = 0;
    while row <= last_row
        invariant
            0 < n <= w,
            n <= h,
            w == puzzle_width,
            h == puzzle_height,
            n == search_len,
            n == search_bytes@.len(),
            last_row == h - n,
            last_col == w - n,
            w * h <= puzzle_bytes@.len() <= usize::MAX,
            inverse_search@ == search_bytes@.reverse(),
            map_1@ == falling_offsets(w, n),
            map_2@ == rising_offsets(w, n),
            row <= last_row + 1,
            matches <= row * w,
            0 <= row * w,
            matches == grid_crosses(
                puzzle_bytes@,
                w,
                search_bytes@,
                (last_col + 1) as nat,
                row as nat,
            ),
        decreases last_row + 1 - row,
    {
        let ghost above = matches;
        let mut col: usize = 0;
        proof {
            lemma_box_in_range(w, h, n, row as int, 0, 0);
        }
        while col <= last_col
            invariant
                0 < n <= w,
                n <= h,
                w == puzzle_width,
                h == puzzle_height,
                n == search_len,
                n == search_bytes@.len(),
                last_row == h - n,
                last_col == w - n,
                w * h <= puzzle_bytes@.len() <= usize::MAX,
                inverse_search@ == search_bytes@.reverse(),
                map_1@ == falling_offsets(w, n),
                map_2@ == rising_offsets(w, n),
                row <= last_row,
                col <= last_col + 1,
                0 <= row * w,
                matches <= row * w + col,
                above == grid_crosses(
                    puzzle_bytes@,
                    w,
                    search_bytes@,
                    (last_col + 1) as nat,
                    row as nat,
                ),
                matches == above + row_crosses(
                    puzzle_bytes@,
                    w,
                    row as int,
                    search_bytes@,
                    col as nat,
                ),
            decreases last_col + 1 - col,
        {
            proof {
                lemma_box_in_range(w, h, n, row as int, col as int, 0);
                assert forall|x: int| 0 <= x < n implies row * w + col + #[trigger] map_1@[x]
                    < puzzle_bytes@.len() by {
                    lemma_box_in_range(w, h, n, row as int, col as int, x);
                }
                assert forall|x: int| 0 <= x < n implies row * w + col + #[trigger] map_2@[x]
                    < puzzle_bytes@.len() by {
                    lemma_box_in_range(w, h, n, row as int, col as int, x);
                }
                assert(inverse_search@.len() == n);
            }
            let start = (row * puzzle_width) + col;
            let first = byte_matcher(
                puzzle_bytes.as_slice(),
                start,
                map_1.as_slice(),
                search_bytes,
            );
            let second = byte_matcher(
                puzzle_bytes.as_slice(),
                start,
                map_1.as_slice(),
                inverse_search.as_slice(),
            );
            let third = byte_matcher(
                puzzle_bytes.as_slice(),
                start,
                map_2.as_slice(),
                search_bytes,
            );
            let fourth = byte_matcher(
                puzzle_bytes.as_slice(),
                start,
                map_2.as_slice(),
                inverse_search.as_slice(),
            );
            let mut count: u8 = 0;
            if first {
                count = count + 1;
            }
            if second {
                count = count + 1;
            }
            if third {
                count = count + 1;
            }
            if fourth {
                count = count + 1;
            }
            if count == 2 {
                matches = matches + 1;
            }
            col = col + 1;
        }
        proof {
            lemma_box_in_range(w, h, n, row as int, 0, 0);
        }
        row = row + 1;
    }
    Ok(matches)
}

} // verus!
