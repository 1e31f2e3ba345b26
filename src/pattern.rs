//! Decoders that build a grid from a pattern file: the plain-text format, in
//! which `O` marks a living cell, and the run-length-encoded format.
use vstd::prelude::*;
use crate::coord::Coord;
use crate::grid::{Grid, seeded, lemma_with_alive_seeded, lemma_seeded_empty};

verus! {

/// The pieces of `s` between line breaks, in order; the last piece is what
/// follows the last line break, possibly empty. A line break is `\n` or
/// `\r\n`: a carriage return right before `\n` belongs to the line break.
pub open spec fn pieces(s: Seq<char>) -> Seq<Seq<char>>
    decreases s.len(),
{
    if s.len() == 0 {
        seq![Seq::empty()]
    } else {
        let p = pieces(s.drop_last());
        if s.last() == '\n' {
            let line = p.last();
            if line.len() > 0 && line.last() == '\r' {
                p.update(p.len() - 1, line.drop_last()).push(Seq::empty())
            } else {
                p.push(Seq::empty())
            }
        } else {
            p.update(p.len() - 1, p.last().push(s.last()))
        }
    }
}

/// The lines of `s`: the pieces between line breaks, where a line break at
/// the very end does not start another line.
pub open spec fn lines_of(s: Seq<char>) -> Seq<Seq<char>> {
    let p = pieces(s);
    if p.last().len() == 0 {
        p.drop_last()
    } else {
        p
    }
}

/// What each vector of characters holds.
pub open spec fn views(v: Seq<Vec<char>>) -> Seq<Seq<char>> {
    v.map_values(|l: Vec<char>| l@)
}

/// There is always at least one piece.
proof fn lemma_pieces_nonempty(s: Seq<char>)
    ensures
        pieces(s).len() >= 1,
    decreases s.len(),
{
    if s.len() > 0 {
        lemma_pieces_nonempty(s.drop_last());
    }
}

/// The characters of `text`.
fn chars_of(text: &str) -> (r: Vec<char>)
    ensures
        r@ == text@,
{
    let mut r: Vec<char> = Vec::new();
    for ch in it: text.chars()
        invariant
            r@ == it.seq().take(it.index() as int),
    {
        r.push(ch);
    }
    r
}

/// The lines of `text`, without their line breaks (`\n` or `\r\n`).
pub fn lines(text: &str) -> (r: Vec<Vec<char>>)
    ensures
        views(r@) == lines_of(text@),
{
    let chars = chars_of(text);
    let mut done: Vec<Vec<char>> = Vec::new();
    let mut cur: Vec<char> = Vec::new();
    for i in 0..chars.len()
        invariant
            chars@ == text@,
            views(done@).push(cur@) == pieces(chars@.take(i as int)),
    {
        let ch = chars[i];
        proof {
            assert(chars@.take(i + 1).drop_last() == chars@.take(i as int));
            assert(chars@.take(i + 1).last() == ch);
            lemma_pieces_nonempty(chars@.take(i as int));
        }
        let ghost before = done@;
        if ch == '\n' {
            if cur.len() > 0 && cur[cur.len() - 1] == '\r' {
                cur.pop();
            }
            let line = cur;
            done.push(line);
            cur = Vec::new();
            proof {
                assert(views(done@) =~= views(before).push(line@));
            }
        } else {
            cur.push(ch);
        }
        proof {
            assert(views(done@).push(cur@) =~= pieces(chars@.take(i + 1)));
        }
    }
    proof {
        assert(chars@.take(chars@.len() as int) == chars@);
    }
    if cur.len() > 0 {
        done.push(cur);
    }
    proof {
        assert(views(done@) =~= lines_of(text@));
    }
    done
}

/// The cells that a plain-text pattern makes alive: `(col, row)` wherever
/// line `row` of `text` holds `O` at position `col`. Every other character
/// leaves its cell dead.
pub open spec fn plain_text_cells(text: Seq<char>) -> Set<Coord> {
    let ls = lines_of(text);
    Set::new(
        |c: Coord|
            0 <= c.y < ls.len() && 0 <= c.x < ls[c.y as int].len() && ls[c.y as int][c.x as int]
                == 'O',
    )
}

/// The cells of `plain_text_cells` that come before line `row`, position
/// `col`, in reading order.
spec fn plain_text_cells_before(ls: Seq<Seq<char>>, row: int, col: int) -> Set<Coord> {
    Set::new(
        |c: Coord|
            0 <= c.y < ls.len() && 0 <= c.x < ls[c.y as int].len() && ls[c.y as int][c.x as int]
                == 'O' && (c.y < row || (c.y == row && c.x < col)),
    )
}

impl Grid {
    /// Decodes a plain-text pattern: each `O` at position `col` of line `row`
    /// makes the cell `(col, row)` alive. No input is rejected.
    pub fn from_txt(text: &str) -> (r: Grid)
        ensures
            r@ == seeded(plain_text_cells(text@)),
    {
        let ls = lines(text);
        let ghost l = lines_of(text@);
        let mut grid = Grid::new();
        let ghost mut live: Set<Coord> = Set::empty();
        proof {
            lemma_seeded_empty();
            assert(live =~= plain_text_cells_before(l, 0, 0));
        }
        let mut row: usize = 0;
        while row < ls.len() && row <= isize::MAX as usize
            invariant
                views(ls@) == l,
                row <= ls.len(),
                grid@ == seeded(live),
                live == plain_text_cells_before(l, row as int, 0),
            decreases ls.len() - row,
        {
            let line = &ls[row];
            assert(line@ == l[row as int]);
            let mut col: usize = 0;
            while col < line.len() && col <= isize::MAX as usize
                invariant
                    views(ls@) == l,
                    row < ls.len(),
                    row <= isize::MAX,
                    line@ == l[row as int],
                    col <= line@.len(),
                    grid@ == seeded(live),
                    live == plain_text_cells_before(l, row as int, col as int),
                decreases line.len() - col,
            {
                if line[col] == 'O' {
                    let c = Coord { x: col as isize, y: row as isize };
                    grid.set_alive(c);
                    proof {
                        lemma_with_alive_seeded(live, c);
                        live = live.insert(c);
                    }
                }
                col += 1;
                proof {
                    assert(live =~= plain_text_cells_before(l, row as int, col as int));
                }
            }
            row += 1;
            proof {
                assert(live =~= plain_text_cells_before(l, row as int, 0));
            }
        }
        proof {
            assert(live =~= plain_text_cells(text@));
        }
        grid
    }
}

/// Why a pattern could not be decoded.
#[derive(Clone, Copy, Debug, PartialEq, Eq, Structural)]
pub enum PatternError {
    /// The file name does not end in an extension of a known format.
    UnknownFormat,
    /// The run-length-encoded text holds no line besides comments.
    MissingHeader,
    /// The header line holds no `x = <width>, y = <height>`.
    InvalidHeader,
    /// A character of the body that is neither part of a run, nor `$`, `!`
    /// or white space.
    UnknownTag(char),
    /// A run or a row would move past the edge of the plane.
    OffPlane,
}

/// Whether `ch` is white space: a character of Unicode's `White_Space`
/// property.
pub open spec fn is_space(ch: char) -> bool {
    ||| '\t' <= ch <= '\r'
    ||| ch == ' '
    ||| ch == '\u{85}'
    ||| ch == '\u{A0}'
    ||| ch == '\u{1680}'
    ||| '\u{2000}' <= ch <= '\u{200A}'
    ||| ch == '\u{2028}'
    ||| ch == '\u{2029}'
    ||| ch == '\u{202F}'
    ||| ch == '\u{205F}'
    ||| ch == '\u{3000}'
}

/// Whether `ch` is a decimal digit.
pub open spec fn is_digit(ch: char) -> bool {
    '0' <= ch <= '9'
}

/// The value of the decimal digit `ch`.
pub open spec fn digit_value(ch: char) -> nat {
    (ch as int - '0' as int) as nat
}

/// Whether `line` is a comment: it starts with `#`.
pub open spec fn is_comment(line: Seq<char>) -> bool {
    line.len() > 0 && line[0] == '#'
}

/// The index of the first line at or after `i` that is not a comment, or the
/// number of lines if there is none.
pub open spec fn first_non_comment(ls: Seq<Seq<char>>, i: nat) -> nat
    decreases ls.len() - i,
{
    if i < ls.len() && is_comment(ls[i as int]) {
        first_non_comment(ls, i + 1)
    } else {
        i
    }
}

/// The first position at or after `i` that does not hold white space.
pub open spec fn skip_spaces(s: Seq<char>, i: nat) -> nat
    decreases s.len() - i,
{
    if i < s.len() && is_space(s[i as int]) {
        skip_spaces(s, i + 1)
    } else {
        i
    }
}

/// The first position at or after `i` that does not hold a digit.
pub open spec fn skip_digits(s: Seq<char>, i: nat) -> nat
    decreases s.len() - i,
{
    if i < s.len() && is_digit(s[i as int]) {
        skip_digits(s, i + 1)
    } else {
        i
    }
}

/// Whether `s` holds the character `ch` at position `i`.
pub open spec fn holds_at(s: Seq<char>, i: nat, ch: char) -> bool {
    i < s.len() && s[i as int] == ch
}

/// Whether `x = <width>, y = <height>` starts at position `i` of `s`, with
/// white space allowed around `=` and `,` and each number made of one or more
/// digits.
pub open spec fn header_at(s: Seq<char>, i: nat) -> bool {
    let a = skip_spaces(s, i + 1);
    let b = skip_spaces(s, a + 1);
    let c = skip_spaces(s, skip_digits(s, b));
    let d = skip_spaces(s, c + 1);
    let e = skip_spaces(s, d + 1);
    let f = skip_spaces(s, e + 1);
    &&& holds_at(s, i, 'x')
    &&& holds_at(s, a, '=')
    &&& skip_digits(s, b) > b
    &&& holds_at(s, c, ',')
    &&& holds_at(s, d, 'y')
    &&& holds_at(s, e, '=')
    &&& skip_digits(s, f) > f
}

/// Whether the header line `s` holds `x = <width>, y = <height>` anywhere.
pub open spec fn is_header(s: Seq<char>) -> bool {
    exists|i: nat| header_at(s, i)
}

/// The position of the first character at or after `i` that is not white
/// space.
fn skip_spaces_from(s: &Vec<char>, i: usize) -> (r: usize)
    requires
        i <= s@.len(),
    ensures
        r == skip_spaces(s@, i as nat),
        i <= r <= s@.len(),
{
    let mut j = i;
    while j < s.len() && is_space_char(s[j])
        invariant
            i <= j <= s@.len(),
            skip_spaces(s@, j as nat) == skip_spaces(s@, i as nat),
        decreases s@.len() - j,
    {
        j += 1;
    }
    j
}

/// The position of the first character at or after `i` that is not a digit.
fn skip_digits_from(s: &Vec<char>, i: usize) -> (r: usize)
    requires
        i <= s@.len(),
    ensures
        r == skip_digits(s@, i as nat),
        i <= r <= s@.len(),
{
    let mut j = i;
    while j < s.len() && '0' <= s[j] && s[j] <= '9'
        invariant
            i <= j <= s@.len(),
            skip_digits(s@, j as nat) == skip_digits(s@, i as nat),
        decreases s@.len() - j,
    {
        j += 1;
    }
    j
}

/// Whether `ch` is white space.
fn is_space_char(ch: char) -> (r: bool)
    ensures
        r == is_space(ch),
{
    ('\t' <= ch && ch <= '\r') || ch == ' ' || ch == '\u{85}' || ch == '\u{A0}' || ch == '\u{1680}'
        || ('\u{2000}' <= ch && ch <= '\u{200A}') || ch == '\u{2028}' || ch == '\u{2029}' || ch
        == '\u{202F}' || ch == '\u{205F}' || ch == '\u{3000}'
}

/// Whether `s` holds `ch` at position `i`.
fn holds(s: &Vec<char>, i: usize, ch: char) -> (r: bool)
    ensures
        r == holds_at(s@, i as nat, ch),
{
    i < s.len() && s[i] == ch
}

/// Whether `x = <width>, y = <height>` starts at position `i` of `s`.
fn header_starts_at(s: &Vec<char>, i: usize) -> (r: bool)
    requires
        i < s@.len(),
    ensures
        r == header_at(s@, i as nat),
{
    proof {
        assert(s@.len() == s.len());
    }
    if !holds(s, i, 'x') {
        return false;
    }
    let a = skip_spaces_from(s, i + 1);
    if !holds(s, a, '=') {
        return false;
    }
    let b = skip_spaces_from(s, a + 1);
    let b_end = skip_digits_from(s, b);
    if b_end == b {
        return false;
    }
    let c = skip_spaces_from(s, b_end);
    if !holds(s, c, ',') {
        return false;
    }
    let d = skip_spaces_from(s, c + 1);
    if !holds(s, d, 'y') {
        return false;
    }
    let e = skip_spaces_from(s, d + 1);
    if !holds(s, e, '=') {
        return false;
    }
    let f = skip_spaces_from(s, e + 1);
    skip_digits_from(s, f) > f
}

/// Whether the line `s` holds `x = <width>, y = <height>` anywhere.
pub fn is_header_line(s: &Vec<char>) -> (r: bool)
    ensures
        r == is_header(s@),
{
    for i in 0..s.len()
        invariant
            forall|k: nat| k < i ==> !header_at(s@, k),
    {
        if header_starts_at(s, i) {
            return true;
        }
    }
    assert forall|k: nat| !header_at(s@, k) by {
        if k >= s@.len() {
            assert(!holds_at(s@, k, 'x'));
        }
    }
    false
}

/// The characters of the lines `ls`, one line after the other.
pub open spec fn concat_lines(ls: Seq<Seq<char>>) -> Seq<char>
    decreases ls.len(),
{
    if ls.len() == 0 {
        Seq::empty()
    } else {
        concat_lines(ls.drop_last()) + ls.last()
    }
}

/// Where the decoding of a run-length-encoded body stands after a prefix of
/// it.
pub enum RunScan {
    /// Still reading: the cursor's row and column, the repeat count read
    /// since the last run (`None` where no digit was read), and the cells
    /// made alive so far.
    Reading { row: nat, col: nat, count: Option<nat>, live: Set<Coord> },
    /// The end-of-pattern mark `!` was read: what follows it is ignored.
    Ended { live: Set<Coord> },
    /// Decoding failed.
    Failed { error: PatternError },
}

/// The cells of a run of `n` cells of row `row` that starts at column `col`.
pub open spec fn run_cells(row: nat, col: nat, n: nat) -> Set<Coord> {
    Set::new(|c: Coord| c.y == row && col <= c.x < col + n)
}

/// The scan after reading `ch` in state `st`. A digit extends the repeat
/// count; `b` (dead) and `o` (alive) end a run of that many cells, one cell
/// where no count was read, and move the cursor past it; `$` starts the next
/// row; `!` ends the pattern; white space is skipped, and a count that it
/// separates from the next tag is dropped; any other character fails.
pub open spec fn scan_char(st: RunScan, ch: char) -> RunScan {
    match st {
        RunScan::Reading { row, col, count, live } => {
            if is_digit(ch) {
                let k = match count {
                    Some(k) => k * 10 + digit_value(ch),
                    None => digit_value(ch),
                };
                RunScan::Reading { row, col, count: Some(k), live }
            } else if ch == 'b' || ch == 'o' {
                let n = match count {
                    Some(k) => k,
                    None => 1,
                };
                if col + n > isize::MAX {
                    RunScan::Failed { error: PatternError::OffPlane }
                } else {
                    let now = if ch == 'o' {
                        live + run_cells(row, col, n)
                    } else {
                        live
                    };
                    RunScan::Reading { row, col: col + n, count: None, live: now }
                }
            } else if ch == '$' {
                if row + 1 > isize::MAX {
                    RunScan::Failed { error: PatternError::OffPlane }
                } else {
                    RunScan::Reading { row: row + 1, col: 0, count: None, live }
                }
            } else if ch == '!' {
                RunScan::Ended { live }
            } else if is_space(ch) {
                RunScan::Reading { row, col, count: None, live }
            } else {
                RunScan::Failed { error: PatternError::UnknownTag(ch) }
            }
        },
        _ => st,
    }
}

/// The scan of the body `s` from its start at row 0, column 0.
pub open spec fn scan(s: Seq<char>) -> RunScan
    decreases s.len(),
{
    if s.len() == 0 {
        RunScan::Reading { row: 0, col: 0, count: None, live: Set::empty() }
    } else {
        scan_char(scan(s.drop_last()), s.last())
    }
}

/// What a finished scan decodes to.
pub open spec fn scan_result(st: RunScan) -> Result<Set<Coord>, PatternError> {
    match st {
        RunScan::Reading { live, .. } => Ok(live),
        RunScan::Ended { live } => Ok(live),
        RunScan::Failed { error } => Err(error),
    }
}

/// The cells that a run-length-encoded pattern makes alive, or why it is
/// rejected. Leading comment lines are skipped; the next line is the header;
/// the remaining lines, joined, are the body, whose rows are separated by
/// `$`.
pub open spec fn run_length_cells(text: Seq<char>) -> Result<Set<Coord>, PatternError> {
    let ls = lines_of(text);
    let h = first_non_comment(ls, 0);
    if h >= ls.len() {
        Err(PatternError::MissingHeader)
    } else if !is_header(ls[h as int]) {
        Err(PatternError::InvalidHeader)
    } else {
        scan_result(scan(concat_lines(ls.subrange(h + 1 as int, ls.len() as int))))
    }
}

/// Once a scan has ended or failed, reading more changes nothing.
proof fn lemma_scan_settled(s: Seq<char>, i: int)
    requires
        0 <= i <= s.len(),
        !(scan(s.take(i)) is Reading),
    ensures
        scan(s) == scan(s.take(i)),
    decreases s.len(),
{
    if i == s.len() {
        assert(s.take(i) == s);
    } else {
        assert(s.drop_last().take(i) == s.take(i));
        lemma_scan_settled(s.drop_last(), i);
    }
}

/// The repeat counts that the decoder holds are capped here: any count at
/// least this large moves the cursor past the edge of the plane.
const COUNT_CAP: u128 = 0x8000_0000_0000_0000;

/// The count `k` as held by the decoder.
spec fn capped(k: nat) -> u128 {
    if k < COUNT_CAP {
        k as u128
    } else {
        COUNT_CAP
    }
}

/// Whether the decoder's cursor `row`, `col`, repeat count `count` and cells
/// `live` are those of the scan `st`, which is still reading.
spec fn decoder_at(
    st: RunScan,
    row: usize,
    col: usize,
    count: Option<u128>,
    live: Set<Coord>,
) -> bool {
    match st {
        RunScan::Reading { row: r, col: c, count: k, live: l } => {
            &&& r == row
            &&& c == col
            &&& l == live
            &&& (k is None <==> count is None)
            &&& k is Some ==> count->0 == capped(k->0)
        },
        _ => false,
    }
}

impl Grid {
    /// Decodes the body of a run-length-encoded pattern.
    fn from_run_length_body(body: &Vec<char>) -> (r: Result<Grid, PatternError>)
        ensures
            match scan_result(scan(body@)) {
                Ok(live) => r matches Ok(g) && g@ == seeded(live),
                Err(e) => r == Err::<Grid, PatternError>(e),
            },
    {
        let mut grid = Grid::new();
        let mut row: usize = 0;
        let mut col: usize = 0;
        let mut count: Option<u128> = None;
        let ghost mut live: Set<Coord> = Set::empty();
        proof {
            lemma_seeded_empty();
            assert(body@.take(0) =~= Seq::<char>::empty());
        }
        let mut i: usize = 0;
        while i < body.len()
            invariant
                i <= body@.len(),
                decoder_at(scan(body@.take(i as int)), row, col, count, live),
                row <= isize::MAX,
                col <= isize::MAX,
                grid@ == seeded(live),
            decreases body@.len() - i,
        {
            let ch = body[i];
            let ghost st = scan(body@.take(i as int));
            proof {
                assert(body@.take(i + 1).drop_last() == body@.take(i as int));
                assert(body@.take(i + 1).last() == ch);
                assert(scan(body@.take(i + 1)) == scan_char(st, ch));
            }
            if '0' <= ch && ch <= '9' {
                let d = (ch as u32 - '0' as u32) as u128;
                assert(d == digit_value(ch));
                count = Some(
                    match count {
                        Some(k) => {
                            if k >= COUNT_CAP {
                                COUNT_CAP
                            } else if k * 10 + d >= COUNT_CAP {
                                COUNT_CAP
                            } else {
                                k * 10 + d
                            }
                        },
                        None => d,
                    },
                );
            } else if ch == 'b' || ch == 'o' {
                let n: u128 = match count {
                    Some(k) => k,
                    None => 1,
                };
                if col as u128 + n > isize::MAX as u128 {
                    proof {
                        lemma_scan_settled(body@, i + 1);
                    }
                    return Err(PatternError::OffPlane);
                }
                let end = col + n as usize;
                if ch == 'o' {
                    let mut x = col;
                    while x < end
                        invariant
                            col <= x <= end,
                            end <= isize::MAX,
                            row <= isize::MAX,
                            grid@ == seeded(live + run_cells(row as nat, col as nat, (x - col) as nat)),
                        decreases end - x,
                    {
                        let c = Coord { x: x as isize, y: row as isize };
                        grid.set_alive(c);
                        proof {
                            let before = live + run_cells(row as nat, col as nat, (x - col) as nat);
                            lemma_with_alive_seeded(before, c);
                            assert(before.insert(c) =~= live + run_cells(
                                row as nat,
                                col as nat,
                                (x + 1 - col) as nat,
                            ));
                        }
                        x += 1;
                    }
                    proof {
                        live = live + run_cells(row as nat, col as nat, n as nat);
                    }
                }
                col = end;
                count = None;
            } else if ch == '$' {
                if row as u128 + 1 > isize::MAX as u128 {
                    proof {
                        lemma_scan_settled(body@, i + 1);
                    }
                    return Err(PatternError::OffPlane);
                }
                row += 1;
                col = 0;
                count = None;
            } else if ch == '!' {
                proof {
                    lemma_scan_settled(body@, i + 1);
                }
                return Ok(grid);
            } else if is_space_char(ch) {
                count = None;
            } else {
                proof {
                    lemma_scan_settled(body@, i + 1);
                }
                return Err(PatternError::UnknownTag(ch));
            }
            i += 1;
        }
        proof {
            assert(body@.take(body@.len() as int) == body@);
        }
        Ok(grid)
    }
    /// Decodes a run-length-encoded pattern: comment lines starting with `#`
    /// come first, then a header line holding `x = <width>, y = <height>`
    /// (the size is not enforced), then the body. The body's rows are
    /// separated by `$`; each run is an optional repeat count followed by `b`
    /// for dead cells or `o` for living ones; `!` ends the pattern.
    pub fn from_rle(text: &str) -> (r: Result<Grid, PatternError>)
        ensures
            match run_length_cells(text@) {
                Ok(live) => r matches Ok(g) && g@ == seeded(live),
                Err(e) => r == Err::<Grid, PatternError>(e),
            },
    {
        let ls = lines(text);
        let ghost l = lines_of(text@);
        let mut h: usize = 0;
        while h < ls.len() && ls[h].len() > 0 && ls[h][0] == '#'
            invariant
                views(ls@) == l,
                h <= ls@.len(),
                first_non_comment(l, h as nat) == first_non_comment(l, 0),
            decreases ls@.len() - h,
        {
            assert(ls@[h as int]@ == l[h as int]);
            h += 1;
        }
        proof {
            if h < ls@.len() {
                assert(ls@[h as int]@ == l[h as int]);
            }
        }
        if h >= ls.len() {
            return Err(PatternError::MissingHeader);
        }
        assert(ls@[h as int]@ == l[h as int]);
        if !is_header_line(&ls[h]) {
            return Err(PatternError::InvalidHeader);
        }
        let mut body: Vec<char> = Vec::new();
        let mut j: usize = h + 1;
        proof {
            assert(l.subrange(h + 1, j as int) =~= Seq::<Seq<char>>::empty());
        }
        while j < ls.len()
            invariant
                views(ls@) == l,
                h < j <= ls@.len(),
                body@ == concat_lines(l.subrange(h + 1, j as int)),
            decreases ls@.len() - j,
        {
            let line = &ls[j];
            assert(line@ == l[j as int]);
            let ghost start = body@;
            for k in 0..line.len()
                invariant
                    body@ == start + line@.take(k as int),
            {
                body.push(line[k]);
                proof {
                    assert(body@ =~= start + line@.take(k + 1));
                }
            }
            proof {
                assert(line@.take(line@.len() as int) == line@);
                assert(l.subrange(h + 1, j + 1).drop_last() =~= l.subrange(h + 1, j as int));
            }
            j += 1;
        }
        Grid::from_run_length_body(&body)
    }
}

/// A pattern file format.
#[derive(Clone, Copy, Debug, PartialEq, Eq, Structural)]
pub enum PatternFormat {
    /// Lines of characters, `O` for a living cell (extension `txt`).
    PlainText,
    /// Run-length encoding (extension `rle`).
    RunLength,
}

/// Whether the file name `name` has the extension `ext`: its last path
/// component is a non-empty stem, a `.`, and `ext`.
pub open spec fn has_extension(name: Seq<char>, ext: Seq<char>) -> bool {
    let n = name.len() as int;
    let k = ext.len() as int;
    &&& n >= k + 2
    &&& name.subrange(n - k, n) == ext
    &&& name[n - k - 1] == '.'
    &&& name[n - k - 2] != '/'
}

/// The format that the extension of the file name `name` selects.
pub open spec fn format_of(name: Seq<char>) -> Option<PatternFormat> {
    if has_extension(name, seq!['t', 'x', 't']) {
        Some(PatternFormat::PlainText)
    } else if has_extension(name, seq!['r', 'l', 'e']) {
        Some(PatternFormat::RunLength)
    } else {
        None
    }
}

/// Whether `name` has the three-letter extension `a`, `b`, `c`.
fn has_extension3(name: &Vec<char>, a: char, b: char, c: char) -> (r: bool)
    ensures
        r == has_extension(name@, seq![a, b, c]),
{
    let n = name.len();
    let r = n >= 5 && name[n - 3] == a && name[n - 2] == b && name[n - 1] == c && name[n - 4]
        == '.' && name[n - 5] != '/';
    proof {
        if n >= 5 {
            let tail = name@.subrange(n - 3, n as int);
            if tail == seq![a, b, c] {
                assert(tail[0] == a && tail[1] == b && tail[2] == c);
            }
            if name[n - 3] == a && name[n - 2] == b && name[n - 1] == c {
                assert(tail =~= seq![a, b, c]);
            }
        }
    }
    r
}

impl PatternFormat {
    /// The format that the extension of `file_name` selects: `txt` for plain
    /// text, `rle` for run-length encoding, and none for any other.
    pub fn from_file_name(file_name: &str) -> (r: Option<PatternFormat>)
        ensures
            r == format_of(file_name@),
    {
        let name = chars_of(file_name);
        if has_extension3(&name, 't', 'x', 't') {
            Some(PatternFormat::PlainText)
        } else if has_extension3(&name, 'r', 'l', 'e') {
            Some(PatternFormat::RunLength)
        } else {
            None
        }
    }
}

impl Grid {
    /// Decodes `contents`, the text of the pattern file `file_name`, in the
    /// format that the file name's extension selects.
    pub fn from_file(file_name: &str, contents: &str) -> (r: Result<Grid, PatternError>)
        ensures
            match format_of(file_name@) {
                None => r == Err::<Grid, PatternError>(PatternError::UnknownFormat),
                Some(PatternFormat::PlainText) => r matches Ok(g) && g@ == seeded(
                    plain_text_cells(contents@),
                ),
                Some(PatternFormat::RunLength) => match run_length_cells(contents@) {
                    Ok(live) => r matches Ok(g) && g@ == seeded(live),
                    Err(e) => r == Err::<Grid, PatternError>(e),
                },
            },
    {
        match PatternFormat::from_file_name(file_name) {
            None => Err(PatternError::UnknownFormat),
            Some(PatternFormat::PlainText) => Ok(Grid::from_txt(contents)),
            Some(PatternFormat::RunLength) => Grid::from_rle(contents),
        }
    }
}

} // verus!
