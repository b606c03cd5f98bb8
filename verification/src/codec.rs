use vstd::prelude::*;

use crate::board::{Board, BoardError, Dir, Move};
use crate::construct::{buildable, spec_goal};
use crate::matrix::{GridView, Matrix2D};
use crate::vec2::Vec2;
use vstd::string::StringSliceAdditionalSpecFns;

verus! {

/// Whether a byte counts as in-line whitespace between tokens.
fn is_ws(b: u8) -> (r: bool)
    ensures
        r == spec_ws(b),
{
    b == 32 || b == 9 || b == 13
}

/// Integer views of a list of index ranges.
pub open spec fn ranges_of(v: Seq<(usize, usize)>) -> Seq<(int, int)> {
    Seq::new(v.len(), |i: int| (v[i].0 as int, v[i].1 as int))
}

/// One pass of the line splitter from byte `i` on, with the start of
/// the current line and the lines already found: split at every
/// newline and keep a final segment only when it is non-empty.
pub open spec fn lines_scan(s: Seq<u8>, i: int, start: int, acc: Seq<(int, int)>) -> Seq<
    (int, int),
>
    decreases s.len() - i,
{
    if i < 0 || i >= s.len() {
        if start < s.len() {
            acc.push((start, s.len() as int))
        } else {
            acc
        }
    } else if s[i] == 10 {
        lines_scan(s, i + 1, i + 1, acc.push((start, i)))
    } else {
        lines_scan(s, i + 1, start, acc)
    }
}

/// The line decomposition of a text, like the standard line iterator:
/// split at every newline, with no final empty segment.
pub open spec fn spec_lines(s: Seq<u8>) -> Seq<(int, int)> {
    lines_scan(s, 0, 0, Seq::empty())
}

/// Split the text into lines at `\n`, like the standard line iterator:
/// the final segment is dropped when the text ends with a newline.
/// The returned ranges are exactly the maximal newline-free segments:
/// each starts at the text's start or right after a newline, ends at
/// the text's end or right before one, and they appear in order.
fn split_lines(bs: &[u8]) -> (lines: Vec<(usize, usize)>)
    ensures
        forall|i: int|
            0 <= i < lines@.len() ==> (#[trigger] lines@[i]).0 <= lines@[i].1 <= bs@.len(),
        forall|i: int, k: int|
            #![trigger lines@[i], bs@[k]]
            0 <= i < lines@.len() && lines@[i].0 <= k < lines@[i].1 ==> bs@[k] != 10,
        forall|i: int|
            0 <= i < lines@.len() ==> ((#[trigger] lines@[i]).1 == bs@.len() || bs@[lines@[i].1 as int]
                == 10),
        forall|i: int|
            0 <= i < lines@.len() ==> ((#[trigger] lines@[i]).0 == 0 || bs@[lines@[i].0 - 1]
                == 10),
        forall|i: int|
            0 <= i < lines@.len() - 1 ==> (#[trigger] lines@[i + 1]).0 == lines@[i].1 + 1,
        lines@.len() > 0 ==> lines@[0].0 == 0,
        (lines@.len() == 0) == (bs@.len() == 0),
        ranges_of(lines@) == spec_lines(bs@),
{
    let mut lines: Vec<(usize, usize)> = Vec::new();
    proof {
        assert(ranges_of(lines@) =~= Seq::<(int, int)>::empty());
    }
    let mut start: usize = 0;
    let mut i: usize = 0;
    while i < bs.len()
        invariant
            start <= i <= bs@.len(),
            forall|k: int|
                0 <= k < lines@.len() ==> (#[trigger] lines@[k]).0 <= lines@[k].1 < bs@.len(),
            forall|t: int, k: int|
                #![trigger lines@[t], bs@[k]]
                0 <= t < lines@.len() && lines@[t].0 <= k < lines@[t].1 ==> bs@[k] != 10,
            forall|t: int| 0 <= t < lines@.len() ==> bs@[(#[trigger] lines@[t]).1 as int] == 10,
            forall|t: int|
                0 <= t < lines@.len() ==> ((#[trigger] lines@[t]).0 == 0 || bs@[lines@[t].0 - 1]
                    == 10),
            forall|t: int|
                0 <= t < lines@.len() - 1 ==> (#[trigger] lines@[t + 1]).0 == lines@[t].1 + 1,
            lines@.len() > 0 ==> lines@[0].0 == 0,
            lines@.len() > 0 ==> start == lines@[lines@.len() - 1].1 + 1,
            lines@.len() == 0 ==> start == 0,
            forall|k: int| start <= k < i ==> bs@[k] != 10,
            start == 0 || bs@[start - 1] == 10,
            spec_lines(bs@) == lines_scan(bs@, i as int, start as int, ranges_of(lines@)),
        decreases bs@.len() - i,
    {
        let ghost pre = lines@;
        if bs[i] == 10 {
            lines.push((start, i));
            proof {
                assert(ranges_of(lines@) =~= ranges_of(pre).push((start as int, i as int)));
            }
            start = i + 1;
        }
        i = i + 1;
    }
    let ghost pre = lines@;
    if start < bs.len() {
        lines.push((start, bs.len()));
        proof {
            assert(ranges_of(lines@) =~= ranges_of(pre).push((start as int, bs@.len() as int)));
        }
    }
    lines
}

/// Whether a byte separates tokens within a line.
pub open spec fn spec_ws(b: u8) -> bool {
    b == 32 || b == 9 || b == 13
}

/// One pass of the tokenizer from byte `i` on: `cur` carries the
/// start of the token being read, if one is open, and `acc` the
/// tokens already found.
pub open spec fn tokens_scan(
    s: Seq<u8>,
    i: int,
    to: int,
    cur: Option<int>,
    acc: Seq<(int, int)>,
) -> Seq<(int, int)>
    decreases to - i,
{
    if i < 0 || i >= to {
        match cur {
            Some(st) => acc.push((st, to)),
            None => acc,
        }
    } else if spec_ws(s[i]) {
        match cur {
            Some(st) => tokens_scan(s, i + 1, to, None, acc.push((st, i))),
            None => tokens_scan(s, i + 1, to, None, acc),
        }
    } else {
        match cur {
            Some(st) => tokens_scan(s, i + 1, to, Some(st), acc),
            None => tokens_scan(s, i + 1, to, Some(i), acc),
        }
    }
}

/// The whitespace-separated tokens of `[from, to)` of a line.
pub open spec fn spec_tokens(s: Seq<u8>, from: int, to: int) -> Seq<(int, int)> {
    tokens_scan(s, from, to, None, Seq::empty())
}

/// Split one line into whitespace-separated token ranges.  The ranges
/// are exactly the maximal whitespace-free runs of `[from, to)`, in
/// order: every token byte is non-whitespace, each token is flanked by
/// whitespace or the line boundary, and every non-whitespace byte of
/// the line lies in some token.
fn line_tokens(bs: &[u8], from: usize, to: usize) -> (toks: Vec<(usize, usize)>)
    requires
        from <= to <= bs@.len(),
    ensures
        forall|i: int|
            0 <= i < toks@.len() ==> from <= (#[trigger] toks@[i]).0 && toks@[i].0 < toks@[i].1
                <= to,
        forall|i: int, k: int|
            #![trigger toks@[i], bs@[k]]
            0 <= i < toks@.len() && toks@[i].0 <= k < toks@[i].1 ==> !spec_ws(bs@[k]),
        forall|i: int|
            0 <= i < toks@.len() ==> ((#[trigger] toks@[i]).0 == from || spec_ws(
                bs@[toks@[i].0 - 1],
            )),
        forall|i: int|
            0 <= i < toks@.len() ==> ((#[trigger] toks@[i]).1 == to || spec_ws(bs@[toks@[i].1 as int])),
        forall|i: int| 0 <= i < toks@.len() - 1 ==> (#[trigger] toks@[i + 1]).0 > toks@[i].1,
        forall|k: int|
            from <= k < to && !spec_ws(bs@[k]) ==> exists|i: int|
                0 <= i < toks@.len() && (#[trigger] toks@[i]).0 <= k < toks@[i].1,
        ranges_of(toks@) == spec_tokens(bs@, from as int, to as int),
{
    let mut toks: Vec<(usize, usize)> = Vec::new();
    proof {
        assert(ranges_of(toks@) =~= Seq::<(int, int)>::empty());
    }
    let mut i: usize = from;
    while i < to
        invariant
            from <= i <= to,
            from <= to <= bs@.len(),
            forall|k: int|
                0 <= k < toks@.len() ==> from <= (#[trigger] toks@[k]).0 && toks@[k].0
                    < toks@[k].1 <= i,
            forall|t: int, k: int|
                #![trigger toks@[t], bs@[k]]
                0 <= t < toks@.len() && toks@[t].0 <= k < toks@[t].1 ==> !spec_ws(bs@[k]),
            forall|t: int|
                0 <= t < toks@.len() ==> ((#[trigger] toks@[t]).0 == from || spec_ws(
                    bs@[toks@[t].0 - 1],
                )),
            forall|t: int|
                0 <= t < toks@.len() ==> ((#[trigger] toks@[t]).1 == to || spec_ws(
                    bs@[toks@[t].1 as int],
                )),
            forall|t: int| 0 <= t < toks@.len() - 1 ==> (#[trigger] toks@[t + 1]).0 > toks@[t].1,
            forall|k: int|
                from <= k < i && !spec_ws(bs@[k]) ==> exists|t: int|
                    0 <= t < toks@.len() && (#[trigger] toks@[t]).0 <= k < toks@[t].1,
            spec_tokens(bs@, from as int, to as int) == tokens_scan(
                bs@,
                i as int,
                to as int,
                None,
                ranges_of(toks@),
            ),
        decreases to - i,
    {
        if is_ws(bs[i]) {
            i = i + 1;
        } else {
            let tok_start = i;
            i = i + 1;
            while i < to && !is_ws(bs[i])
                invariant
                    tok_start < i <= to,
                    from <= tok_start,
                    to <= bs@.len(),
                    forall|k: int| tok_start <= k < i ==> !spec_ws(bs@[k]),
                    !spec_ws(bs@[tok_start as int]),
                    spec_tokens(bs@, from as int, to as int) == tokens_scan(
                        bs@,
                        i as int,
                        to as int,
                        Some(tok_start as int),
                        ranges_of(toks@),
                    ),
                decreases to - i,
            {
                i = i + 1;
            }
            let ghost pre = toks@;
            toks.push((tok_start, i));
            proof {
                assert(ranges_of(toks@) =~= ranges_of(pre).push((tok_start as int, i as int)));
                assert(toks@[toks@.len() - 1] == (tok_start, i));
                assert(i == to || spec_ws(bs@[i as int]));
                assert forall|k: int|
                    from <= k < i && !spec_ws(bs@[k]) implies exists|t: int|
                    0 <= t < toks@.len() && (#[trigger] toks@[t]).0 <= k < toks@[t].1 by {
                    if k < tok_start {
                        let t = choose|t: int|
                            0 <= t < pre.len() && (#[trigger] pre[t]).0 <= k < pre[t].1;
                        assert(toks@[t].0 <= k < toks@[t].1);
                    } else {
                        assert(toks@[toks@.len() - 1].0 <= k < toks@[toks@.len() - 1].1);
                    }
                }
            }
        }
    }
    toks
}

/// The accumulator run of a decimal digit scan: extend `acc` with the
/// digits of `t` from index `i` on, or `None` at the first non-digit.
pub open spec fn digits_from(t: Seq<u8>, i: int, acc: int) -> Option<int>
    decreases t.len() - i,
{
    if i < 0 || i >= t.len() {
        Some(acc)
    } else if 48 <= t[i] <= 57 {
        digits_from(t, i + 1, acc * 10 + (t[i] - 48))
    } else {
        None
    }
}

/// The value a token denotes as a signed decimal `i8`: an optional
/// sign, then digits, rejected when empty, malformed or out of range;
/// exactly what the standard integer parser accepts.
pub open spec fn spec_parse_i8(t: Seq<u8>) -> Option<i8> {
    if t.len() == 0 {
        None
    } else {
        let neg = t[0] == 45;
        let signed = t[0] == 45 || t[0] == 43;
        let s = if signed {
            t.drop_first()
        } else {
            t
        };
        if s.len() == 0 {
            None
        } else {
            match digits_from(s, 0, 0) {
                Some(v) => {
                    let sv = if neg {
                        -v
                    } else {
                        v
                    };
                    if -128 <= sv <= 127 {
                        Some(sv as i8)
                    } else {
                        None
                    }
                },
                None => None,
            }
        }
    }
}

/// A digit scan only grows its accumulator.
proof fn lemma_digits_monotone(t: Seq<u8>, i: int, acc: int)
    requires
        0 <= acc,
        0 <= i,
    ensures
        digits_from(t, i, acc) matches Some(v) ==> v >= acc,
    decreases t.len() - i,
{
    if 0 <= i < t.len() && 48 <= t[i] <= 57 {
        lemma_digits_monotone(t, i + 1, acc * 10 + (t[i] - 48));
    }
}

/// Parse one token as a decimal `i8`, with an optional sign, exactly
/// as the standard integer parser accepts it.
fn parse_i8_range(bs: &[u8], from: usize, to: usize) -> (r: Option<i8>)
    requires
        from < to <= bs@.len(),
    ensures
        r == spec_parse_i8(bs@.subrange(from as int, to as int)),
{
    let ghost t = bs@.subrange(from as int, to as int);
    let mut i: usize = from;
    let negative: bool = if bs[i] == 45 {
        i = i + 1;
        true
    } else if bs[i] == 43 {
        i = i + 1;
        false
    } else {
        false
    };
    let ghost start = i as int;
    let ghost s = bs@.subrange(start, to as int);
    proof {
        assert forall|k: int| 0 <= k < s.len() implies s[k] == bs@[start + k] by {}
        assert(t.len() > 0);
        assert(t[0] == bs@[from as int]);
        if start > from {
            assert(s =~= t.drop_first());
        } else {
            assert(s =~= t);
        }
    }
    if i >= to {
        return None;
    }
    let mut value: i32 = 0;
    while i < to
        invariant
            start <= i <= to,
            from < to <= bs@.len(),
            from <= start,
            t == bs@.subrange(from as int, to as int),
            t.len() > 0,
            negative == (t[0] == 45),
            start == from + (if t[0] == 45 || t[0] == 43 {
                1int
            } else {
                0int
            }),
            s == bs@.subrange(start, to as int),
            s == (if t[0] == 45 || t[0] == 43 {
                t.drop_first()
            } else {
                t
            }),
            s.len() > 0,
            -128 <= value <= 127,
            negative ==> value <= 0,
            !negative ==> value >= 0,
            digits_from(s, 0, 0) == digits_from(
                s,
                i - start,
                if negative {
                    -value as int
                } else {
                    value as int
                },
            ),
        decreases to - i,
    {
        let b = bs[i];
        proof {
            assert(s[i - start] == b);
        }
        if b < 48 || b > 57 {
            proof {
                assert(digits_from(s, i - start, if negative { -value as int } else { value as int })
                    is None);
            }
            return None;
        }
        let ghost acc = if negative {
            -value as int
        } else {
            value as int
        };
        let ghost acc2 = acc * 10 + (b - 48);
        proof {
            assert(digits_from(s, i - start, acc) == digits_from(s, i - start + 1, acc2));
            lemma_digits_monotone(s, i - start + 1, acc2);
        }
        if value > 12 || value < -12 {
            proof {
                assert(acc >= 13);
                assert(acc2 >= 130);
            }
            return None;
        }
        let d = (b - 48) as i32;
        if negative {
            value = value * 10 - d;
            if value < -128 {
                proof {
                    assert(acc2 > 128);
                }
                return None;
            }
        } else {
            value = value * 10 + d;
            if value > 127 {
                proof {
                    assert(acc2 > 127);
                }
                return None;
            }
        }
        i = i + 1;
    }
    proof {
        assert(digits_from(s, i - start, if negative { -value as int } else { value as int })
            == Some(if negative { -value as int } else { value as int }));
    }
    Some(value as i8)
}

/// The board size a header line denotes: two integer tokens, rows
/// then columns, returned width-first.
pub open spec fn spec_header(s: Seq<u8>, l0: int, l1: int) -> Result<Vec2, BoardError> {
    let toks = spec_tokens(s, l0, l1);
    if toks.len() != 2 {
        Err(BoardError::BadHeader)
    } else {
        match spec_parse_i8(s.subrange(toks[0].0, toks[0].1)) {
            Some(rows) => match spec_parse_i8(s.subrange(toks[1].0, toks[1].1)) {
                Some(cols) => Ok(Vec2 { x: cols, y: rows }),
                None => Err(BoardError::BadHeader),
            },
            None => Err(BoardError::BadHeader),
        }
    }
}

/// The cell values the tokens of one row line denote, appended to
/// `acc`; the first bad token decides the error.
pub open spec fn row_scan(s: Seq<u8>, toks: Seq<(int, int)>, c: int, acc: Seq<i8>) -> Result<
    Seq<i8>,
    BoardError,
>
    decreases toks.len() - c,
{
    if c < 0 || c >= toks.len() {
        Ok(acc)
    } else {
        match spec_parse_i8(s.subrange(toks[c].0, toks[c].1)) {
            Some(v) => row_scan(s, toks, c + 1, acc.push(v)),
            None => Err(BoardError::BadToken),
        }
    }
}

/// The cell values of the rows from `r` on, appended to `acc`: each
/// row line must hold exactly `w` integer tokens.
pub open spec fn rows_scan(
    s: Seq<u8>,
    lines: Seq<(int, int)>,
    w: int,
    r: int,
    h: int,
    acc: Seq<i8>,
) -> Result<Seq<i8>, BoardError>
    decreases h - r,
{
    if r < 0 || r >= h {
        Ok(acc)
    } else {
        let toks = spec_tokens(s, lines[1 + r].0, lines[1 + r].1);
        if toks.len() != w {
            Err(BoardError::WrongRowLength)
        } else {
            match row_scan(s, toks, 0, acc) {
                Ok(acc2) => rows_scan(s, lines, w, r + 1, h, acc2),
                Err(e) => Err(e),
            }
        }
    }
}

/// The grid a text denotes: a `rows cols` header line, then that many
/// row lines of that many integer cell tokens; or the first error the
/// line-by-line parse meets.
pub open spec fn spec_grid_text(s: Seq<u8>) -> Result<GridView<i8>, BoardError> {
    let ls = spec_lines(s);
    if ls.len() == 0 {
        Err(BoardError::BadHeader)
    } else {
        match spec_header(s, ls[0].0, ls[0].1) {
            Ok(size) => {
                if size.x <= 0 || size.y <= 0 {
                    Err(BoardError::BadDimensions)
                } else if ls.len() < 1 + size.y {
                    Err(BoardError::WrongRowLength)
                } else {
                    match rows_scan(s, ls, size.x as int, 0, size.y as int, Seq::empty()) {
                        Ok(cells) => Ok(
                            GridView { w: size.x as int, h: size.y as int, cells },
                        ),
                        Err(e) => Err(e),
                    }
                }
            },
            Err(e) => Err(e),
        }
    }
}

impl Matrix2D<i8> {
    /// Parse the header line `rows cols` into a size vector (width
    /// first).
    pub fn parse_size(bs: &[u8], from: usize, to: usize) -> (r: Result<Vec2, BoardError>)
        requires
            from <= to <= bs@.len(),
        ensures
            r == spec_header(bs@, from as int, to as int),
    {
        let toks = line_tokens(bs, from, to);
        if toks.len() != 2 {
            return Err(BoardError::BadHeader);
        }
        let (r0, r1) = toks[0];
        let rows = match parse_i8_range(bs, r0, r1) {
            Some(v) => v,
            None => {
                return Err(BoardError::BadHeader);
            },
        };
        let (c0, c1) = toks[1];
        let cols = match parse_i8_range(bs, c0, c1) {
            Some(v) => v,
            None => {
                return Err(BoardError::BadHeader);
            },
        };
        Ok(Vec2 { x: cols, y: rows })
    }

    /// Parse the line-oriented textual grid format: a `rows cols`
    /// header, then `rows` lines of `cols` whitespace-separated block
    /// ids, with `0` marking an empty cell.
    pub fn from_str(input: &str) -> (r: Result<Matrix2D<i8>, BoardError>)
        ensures
            r matches Ok(m) ==> m@.wf() && 0 < m@.w && 0 < m@.h,
            match r {
                Ok(m) => spec_grid_text(input.spec_bytes()) == Ok::<GridView<i8>, BoardError>(
                    m@,
                ),
                Err(e) => spec_grid_text(input.spec_bytes()) == Err::<GridView<i8>, BoardError>(
                    e,
                ),
            },
    {
        let bs = input.as_bytes();
        let ghost sb = bs@;
        let ghost ls = spec_lines(sb);
        let lines = split_lines(bs);
        if lines.len() == 0 {
            return Err(BoardError::BadHeader);
        }
        let (h0, h1) = lines[0];
        proof {
            assert(ls[0] == (h0 as int, h1 as int));
        }
        let size = match Self::parse_size(bs, h0, h1) {
            Ok(v) => v,
            Err(e) => {
                return Err(e);
            },
        };
        if size.x <= 0 || size.y <= 0 {
            return Err(BoardError::BadDimensions);
        }
        if lines.len() < 1 + size.y as usize {
            return Err(BoardError::WrongRowLength);
        }
        let mut cells: Vec<i8> = Vec::new();
        let mut row: usize = 0;
        while row < size.y as usize
            invariant
                sb == bs@,
                sb == input.spec_bytes(),
                ls == spec_lines(sb),
                ranges_of(lines@) == ls,
                spec_header(sb, ls[0].0, ls[0].1) == Ok::<Vec2, BoardError>(size),
                0 < size.x,
                0 < size.y,
                row <= size.y as int,
                1 + size.y as int <= lines@.len(),
                forall|i: int|
                    0 <= i < lines@.len() ==> (#[trigger] lines@[i]).0 <= lines@[i].1
                        <= bs@.len(),
                cells@.len() == row * size.x,
                rows_scan(sb, ls, size.x as int, 0, size.y as int, Seq::empty()) == rows_scan(
                    sb,
                    ls,
                    size.x as int,
                    row as int,
                    size.y as int,
                    cells@,
                ),
            decreases size.y as int - row,
        {
            let (l0, l1) = lines[1 + row];
            proof {
                assert(ls[1 + row as int] == (l0 as int, l1 as int));
            }
            let toks = line_tokens(bs, l0, l1);
            let ghost tk = spec_tokens(sb, l0 as int, l1 as int);
            if toks.len() != size.x as usize {
                return Err(BoardError::WrongRowLength);
            }
            let ghost row_start_cells = cells@;
            let mut col: usize = 0;
            while col < size.x as usize
                invariant
                    sb == bs@,
                    sb == input.spec_bytes(),
                    ls == spec_lines(sb),
                    spec_header(sb, ls[0].0, ls[0].1) == Ok::<Vec2, BoardError>(size),
                    0 < size.x,
                    0 < size.y,
                    row < size.y as int,
                    1 + size.y as int <= ls.len(),
                    tk == spec_tokens(sb, ls[1 + row as int].0, ls[1 + row as int].1),
                    rows_scan(sb, ls, size.x as int, 0, size.y as int, Seq::empty()) == rows_scan(
                        sb,
                        ls,
                        size.x as int,
                        row as int,
                        size.y as int,
                        row_start_cells,
                    ),
                    col <= size.x as int,
                    toks@.len() == size.x as int,
                    ranges_of(toks@) == tk,
                    tk.len() == size.x as int,
                    forall|i: int|
                        0 <= i < toks@.len() ==> (#[trigger] toks@[i]).0 < toks@[i].1
                            <= bs@.len(),
                    cells@.len() == row * size.x + col,
                    row_scan(sb, tk, 0, row_start_cells) == row_scan(sb, tk, col as int, cells@),
                decreases size.x as int - col,
            {
                let (t0, t1) = toks[col];
                proof {
                    assert(tk[col as int] == (t0 as int, t1 as int));
                }
                match parse_i8_range(bs, t0, t1) {
                    Some(v) => {
                        cells.push(v);
                    },
                    None => {
                        return Err(BoardError::BadToken);
                    },
                }
                col = col + 1;
            }
            proof {
                assert(row * size.x + size.x == (row + 1) * size.x) by (nonlinear_arith) {}
                assert(rows_scan(sb, ls, size.x as int, row as int, size.y as int, row_start_cells)
                    == rows_scan(sb, ls, size.x as int, row + 1 as int, size.y as int, cells@));
            }
            row = row + 1;
        }
        proof {
            assert(size.y as int * size.x as int == size.x as int * size.y as int)
                by (nonlinear_arith) {}
        }
        match Matrix2D::from_vec(size, cells) {
            Ok(m) => {
                proof {
                    assert(m@ =~= GridView::<i8> {
                        w: size.x as int,
                        h: size.y as int,
                        cells: cells@,
                    });
                }
                Ok(m)
            },
            Err(_) => Err(BoardError::WrongRowLength),
        }
    }
}

impl Board {
    /// Parse a board from its textual grid form and build it; see
    /// [`Matrix2D::from_str`] for the format and [`Board::from_grid`]
    /// for the structural checks.  Success is owed exactly when the
    /// text denotes a grid and a board can be built from that grid.
    pub fn from_str(input: &str) -> (r: Result<Board, BoardError>)
        ensures
            r is Ok <==> (spec_grid_text(input.spec_bytes()) matches Ok(g) && buildable(g)),
            r matches Ok(b) ==> {
                &&& spec_grid_text(input.spec_bytes()) == Ok::<GridView<i8>, BoardError>(b@.grid)
                &&& b.wf()
                &&& spec_goal(b@.state.blocks, b@.grid.w, b@.grid.h) == Ok::<
                    crate::board::StateView,
                    BoardError,
                >(b@.goal)
            },
            spec_grid_text(input.spec_bytes()) matches Err(e) ==> r == Err::<
                Board,
                BoardError,
            >(e),
            spec_grid_text(input.spec_bytes()) matches Ok(g) ==> {
                &&& ((r == Err::<Board, BoardError>(BoardError::MalformedBlock) || r == Err::<
                    Board,
                    BoardError,
                >(BoardError::MissingBlock)) ==> !crate::construct::decodable(g))
                &&& (r == Err::<Board, BoardError>(BoardError::UnfittableLayout)
                    ==> crate::construct::decodable(g) && !buildable(g))
            },
    {
        let grid = match Matrix2D::from_str(input) {
            Ok(m) => m,
            Err(e) => {
                return Err(e);
            },
        };
        Self::from_grid(grid)
    }
}

/// The index of the first comma at or after `i`, or the text length.
pub open spec fn comma_from(bs: Seq<u8>, i: int) -> int
    decreases bs.len() - i,
{
    if i < 0 || i >= bs.len() {
        bs.len() as int
    } else if bs[i] == 44 {
        i
    } else {
        comma_from(bs, i + 1)
    }
}

/// The coordinate pair a text such as `4,2` denotes: two signed
/// decimal numbers around a single comma.
pub open spec fn spec_vec2_text(bs: Seq<u8>) -> Result<Vec2, BoardError> {
    let c = comma_from(bs, 0);
    if c >= bs.len() || comma_from(bs, c + 1) < bs.len() || c == 0 || c + 1 >= bs.len() {
        Err(BoardError::BadHeader)
    } else {
        match spec_parse_i8(bs.subrange(0, c)) {
            Some(x) => match spec_parse_i8(bs.subrange(c + 1, bs.len() as int)) {
                Some(y) => Ok(Vec2 { x, y }),
                None => Err(BoardError::BadToken),
            },
            None => Err(BoardError::BadToken),
        }
    }
}

proof fn lemma_comma_from_bound(bs: Seq<u8>, i: int)
    requires
        0 <= i <= bs.len(),
    ensures
        i <= comma_from(bs, i) <= bs.len(),
        comma_from(bs, i) < bs.len() ==> bs[comma_from(bs, i)] == 44,
        forall|k: int| i <= k < comma_from(bs, i) ==> bs[k] != 44,
    decreases bs.len() - i,
{
    if 0 <= i < bs.len() && bs[i] != 44 {
        lemma_comma_from_bound(bs, i + 1);
    }
}

/// Parse a comma-separated coordinate pair such as `4,2`.
pub fn vec2_from_str(input: &str) -> (r: Result<Vec2, BoardError>)
    ensures
        r == spec_vec2_text(input.spec_bytes()),
{
    let bs = input.as_bytes();
    proof {
        lemma_comma_from_bound(bs@, 0);
    }
    let mut comma: usize = 0;
    let mut found = false;
    let mut i: usize = 0;
    while i < bs.len()
        invariant
            bs@ == input.spec_bytes(),
            i <= bs@.len(),
            found ==> comma < i && comma_from(bs@, 0) == comma && comma_from(bs@, comma + 1) >= i,
            !found ==> comma_from(bs@, 0) >= i,
        decreases bs@.len() - i,
    {
        if bs[i] == 44 {
            proof {
                lemma_comma_from_bound(bs@, 0);
                if found {
                    lemma_comma_from_bound(bs@, comma + 1);
                }
            }
            if found {
                proof {
                    assert(comma_from(bs@, comma + 1) <= i as int);
                    assert(comma_from(bs@, comma + 1) < bs@.len());
                }
                return Err(BoardError::BadHeader);
            }
            comma = i;
            found = true;
            proof {
                assert(comma_from(bs@, 0) == comma as int) by {
                    lemma_comma_from_bound(bs@, 0);
                    if comma_from(bs@, 0) < comma as int {
                        assert(bs@[comma_from(bs@, 0)] == 44);
                    }
                }
                lemma_comma_from_bound(bs@, comma + 1);
            }
        } else {
            proof {
                if found {
                    assert(comma_from(bs@, comma + 1) >= i + 1) by {
                        lemma_comma_from_bound(bs@, comma + 1);
                        if comma_from(bs@, comma + 1) == i as int {
                            assert(bs@[i as int] == 44);
                        }
                    }
                } else {
                    assert(comma_from(bs@, 0) >= i + 1) by {
                        lemma_comma_from_bound(bs@, 0);
                        if comma_from(bs@, 0) == i as int {
                            assert(bs@[i as int] == 44);
                        }
                    }
                }
            }
        }
        i = i + 1;
    }
    proof {
        lemma_comma_from_bound(bs@, 0);
        if found {
            lemma_comma_from_bound(bs@, comma + 1);
        }
    }
    if !found || comma == 0 || comma + 1 >= bs.len() {
        return Err(BoardError::BadHeader);
    }
    let x = match parse_i8_range(bs, 0, comma) {
        Some(v) => v,
        None => {
            return Err(BoardError::BadToken);
        },
    };
    let y = match parse_i8_range(bs, comma + 1, bs.len()) {
        Some(v) => v,
        None => {
            return Err(BoardError::BadToken);
        },
    };
    Ok(Vec2 { x, y })
}


/// The move a manual-play command denotes: a decimal block id
/// followed by one direction letter `U`, `D`, `L` or `R`.
pub open spec fn spec_cmd(bs: Seq<u8>) -> Result<Move, BoardError> {
    if bs.len() == 0 {
        Err(BoardError::BadToken)
    } else {
        let d = bs[bs.len() - 1];
        if d == 85 || d == 68 || d == 76 || d == 82 {
            if bs.len() == 1 {
                Err(BoardError::BadToken)
            } else {
                match spec_parse_i8(bs.subrange(0, bs.len() - 1)) {
                    Some(id) => Ok(
                        (
                            id,
                            if d == 85 {
                                Dir::Up
                            } else if d == 68 {
                                Dir::Down
                            } else if d == 76 {
                                Dir::Left
                            } else {
                                Dir::Right
                            },
                        ),
                    ),
                    None => Err(BoardError::BadToken),
                }
            }
        } else {
            Err(BoardError::BadToken)
        }
    }
}

/// Parse a manual-play command such as `5L`: a block id followed by a
/// direction letter.
pub fn parse_cmd(cmd: &str) -> (r: Result<Move, BoardError>)
    ensures
        r == spec_cmd(cmd.spec_bytes()),
{
    let bs = cmd.as_bytes();
    if bs.len() == 0 {
        return Err(BoardError::BadToken);
    }
    let dir = match bs[bs.len() - 1] {
        85 => Dir::Up,
        68 => Dir::Down,
        76 => Dir::Left,
        82 => Dir::Right,
        _ => {
            return Err(BoardError::BadToken);
        },
    };
    if bs.len() == 1 {
        return Err(BoardError::BadToken);
    }
    match parse_i8_range(bs, 0, bs.len() - 1) {
        Some(id) => Ok((id, dir)),
        None => Err(BoardError::BadToken),
    }
}

} // verus!
