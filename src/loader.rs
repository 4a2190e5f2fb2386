use vstd::prelude::*;

verus! {

/// Why a text pattern was refused.
#[derive(Debug, Clone, Copy, PartialEq, Eq, Structural)]
pub enum ParseError {
    /// A byte other than `X` or `-` stands in a row, at this line and column (both from zero).
    InvalidCharacter { line: usize, column: usize },
    /// This line (from zero) is not as long as the first one.
    NonUniformRow { line: usize },
}

/// A byte that may stand in a row: `X` (alive) or `-` (dead).
pub open spec fn is_cell_byte(b: u8) -> bool {
    b == 88u8 || b == 45u8
}

/// The index of the first `\n` at or after `i`, or the length of `s` if there is none.
pub open spec fn line_end(s: Seq<u8>, i: int) -> int
    decreases s.len() - i,
{
    if i >= s.len() {
        s.len() as int
    } else if s[i] == 10u8 {
        i
    } else {
        line_end(s, i + 1)
    }
}

pub proof fn lemma_line_end_bounds(s: Seq<u8>, i: int)
    requires
        0 <= i <= s.len(),
    ensures
        i <= line_end(s, i) <= s.len(),
        line_end(s, i) < s.len() ==> s[line_end(s, i)] == 10u8,
    decreases s.len() - i,
{
    if i < s.len() && s[i] != 10u8 {
        lemma_line_end_bounds(s, i + 1);
    }
}

/// The text of the line from `start` to `end`: a `\r` just before its `\n` is no part of it.
pub open spec fn line_content(s: Seq<u8>, start: int, end: int) -> Seq<u8> {
    if end < s.len() && end > start && s[end - 1] == 13u8 {
        s.subrange(start, end - 1)
    } else {
        s.subrange(start, end)
    }
}

/// The lines of `s` from `start` on. A final `\n` ends the last line and opens no other.
pub open spec fn lines_from(s: Seq<u8>, start: int) -> Seq<Seq<u8>>
    decreases s.len() + 1 - start,
    via lines_from_decreases
{
    if start < 0 || start >= s.len() {
        Seq::empty()
    } else {
        let end = line_end(s, start);
        seq![line_content(s, start, end)] + lines_from(s, end + 1)
    }
}

#[via_fn]
proof fn lines_from_decreases(s: Seq<u8>, start: int) {
    if 0 <= start < s.len() {
        lemma_line_end_bounds(s, start);
    }
}

/// The lines of a text.
pub open spec fn lines(s: Seq<u8>) -> Seq<Seq<u8>> {
    lines_from(s, 0)
}

/// The first column of `l` at or after `c` that holds no cell byte, or the length of `l`.
pub open spec fn first_bad_from(l: Seq<u8>, c: int) -> int
    decreases l.len() - c,
{
    if c >= l.len() {
        l.len() as int
    } else if !is_cell_byte(l[c]) {
        c
    } else {
        first_bad_from(l, c + 1)
    }
}

/// What is wrong with line number `i`, whose text is `l`, where rows must be `w` long.
pub open spec fn line_error(l: Seq<u8>, w: nat, i: int) -> Option<ParseError> {
    let bad = first_bad_from(l, 0);
    if bad < l.len() {
        Some(ParseError::InvalidCharacter { line: i as usize, column: bad as usize })
    } else if l.len() != w {
        Some(ParseError::NonUniformRow { line: i as usize })
    } else {
        None
    }
}

/// The first error among the lines `ls` from index `i` on, where rows must be `w` long.
pub open spec fn first_error_from(ls: Seq<Seq<u8>>, w: nat, i: int) -> Option<ParseError>
    decreases ls.len() - i,
{
    if i < 0 || i >= ls.len() {
        None
    } else {
        match line_error(ls[i], w, i) {
            Some(e) => Some(e),
            None => first_error_from(ls, w, i + 1),
        }
    }
}

/// The first error of a text read line by line, with the first line setting the width.
pub open spec fn first_error(ls: Seq<Seq<u8>>) -> Option<ParseError> {
    if ls.len() == 0 {
        None
    } else {
        first_error_from(ls, ls[0].len(), 0)
    }
}

/// The cells of one row: `true` for each `X`.
pub open spec fn row_cells(l: Seq<u8>) -> Seq<bool> {
    l.map_values(|b: u8| b == 88u8)
}

/// The cells of all rows, one row after the other.
pub open spec fn pattern_cells(ls: Seq<Seq<u8>>) -> Seq<bool>
    decreases ls.len(),
{
    if ls.len() == 0 {
        Seq::empty()
    } else {
        pattern_cells(ls.drop_last()) + row_cells(ls.last())
    }
}

/// The width of a pattern read from lines `ls`: the length of its first line.
pub open spec fn pattern_width(ls: Seq<Seq<u8>>) -> nat {
    if ls.len() == 0 {
        0
    } else {
        ls[0].len()
    }
}

proof fn lemma_first_bad_bound(l: Seq<u8>, c: int)
    requires
        0 <= c,
    ensures
        first_bad_from(l, c) <= l.len(),
    decreases l.len() - c,
{
    if c < l.len() {
        lemma_first_bad_bound(l, c + 1);
    }
}

proof fn lemma_no_bad_byte(l: Seq<u8>, c: int)
    requires
        0 <= c,
        first_bad_from(l, c) == l.len(),
    ensures
        forall|j: int| c <= j < l.len() ==> is_cell_byte(#[trigger] l[j]),
    decreases l.len() - c,
{
    if c < l.len() {
        lemma_no_bad_byte(l, c + 1);
    }
}

proof fn lemma_no_error_rows(ls: Seq<Seq<u8>>, w: nat, i: int)
    requires
        0 <= i,
        first_error_from(ls, w, i) is None,
    ensures
        forall|j: int|
            i <= j < ls.len() ==> (#[trigger] ls[j]).len() == w && first_bad_from(ls[j], 0)
                == ls[j].len(),
    decreases ls.len() - i,
{
    if i < ls.len() {
        lemma_first_bad_bound(ls[i], 0);
        lemma_no_error_rows(ls, w, i + 1);
    }
}

proof fn lemma_pattern_cells_index(ls: Seq<Seq<u8>>, w: nat)
    requires
        forall|j: int| 0 <= j < ls.len() ==> (#[trigger] ls[j]).len() == w,
    ensures
        pattern_cells(ls).len() == ls.len() * w,
        forall|r: int, c: int|
            0 <= r < ls.len() && 0 <= c < w ==> pattern_cells(ls)[r * w + c] == (#[trigger] ls[r][c]
                == 88u8),
    decreases ls.len(),
{
    if ls.len() > 0 {
        let init = ls.drop_last();
        let m = ls.len() - 1;
        assert forall|j: int| 0 <= j < init.len() implies (#[trigger] init[j]).len() == w by {
            assert(init[j] == ls[j]);
        }
        lemma_pattern_cells_index(init, w);
        assert((m + 1) * w == m * w + w) by (nonlinear_arith);
        assert forall|r: int, c: int| 0 <= r < ls.len() && 0 <= c < w implies pattern_cells(ls)[r
            * w + c] == (#[trigger] ls[r][c] == 88u8) by {
            if r < m {
                assert(r * w + c < m * w) by (nonlinear_arith)
                    requires
                        0 <= r < m,
                        0 <= c < w,
                ;
                assert(init[r] == ls[r]);
            } else {
                assert(r * w + c == m * w + c);
            }
        }
    }
}

/// A text that loads gives rows of one width, each byte of them `X` or `-`, and its cells
/// hold, at row-major place `r * width + c`, whether row `r` has an `X` at column `c`.
pub proof fn lemma_loaded_cells(text: Seq<u8>)
    requires
        first_error(lines(text)) is None,
    ensures
        pattern_cells(lines(text)).len() == lines(text).len() * pattern_width(lines(text)),
        forall|r: int| 0 <= r < lines(text).len() ==> (#[trigger] lines(text)[r]).len() == pattern_width(lines(text)),
        forall|r: int, c: int|
            0 <= r < lines(text).len() && 0 <= c < pattern_width(lines(text)) ==> {
                &&& is_cell_byte(#[trigger] lines(text)[r][c])
                &&& pattern_cells(lines(text))[r * pattern_width(lines(text)) + c] == (lines(text)[r][c] == 88u8)
            },
{
    let ls = lines(text);
    let w = pattern_width(ls);
    if ls.len() > 0 {
        lemma_no_error_rows(ls, w, 0);
        assert forall|r: int, c: int| 0 <= r < ls.len() && 0 <= c < w implies is_cell_byte(
            #[trigger] ls[r][c],
        ) by {
            lemma_no_bad_byte(ls[r], 0);
        }
    }
    lemma_pattern_cells_index(ls, w);
}

/// Reads a pattern: one row per line, `X` alive and `-` dead. Gives the cells row-major with
/// the width (the first row's length) and the height (the number of lines), or the first
/// line that holds another byte or differs in length from the first.
pub fn parse_state(text: &[u8]) -> (r: Result<(Vec<bool>, (usize, usize)), ParseError>)
    ensures
        r is Ok <==> first_error(lines(text@)) is None,
        r matches Err(e) ==> first_error(lines(text@)) == Some(e),
        r matches Ok((cells, (w, h))) ==> {
            let ls = lines(text@);
            &&& h == ls.len()
            &&& w == pattern_width(ls)
            &&& cells@ == pattern_cells(ls)
        },
{
    let ghost s = text@;
    let ghost ls = lines(s);
    let n = text.len();
    let mut out: Vec<bool> = Vec::new();
    let mut width: usize = 0;
    let mut height: usize = 0;
    let mut start: usize = 0;
    while start < n
        invariant
            n == s.len(),
            s == text@,
            ls == lines(s),
            start <= n,
            height <= start,
            height <= ls.len(),
            lines_from(s, start as int) == ls.subrange(height as int, ls.len() as int),
            height > 0 ==> width == ls[0].len(),
            height == 0 ==> width == 0,
            out@ == pattern_cells(ls.take(height as int)),
            height > 0 ==> first_error_from(ls, ls[0].len(), 0) == first_error_from(
                ls,
                ls[0].len(),
                height as int,
            ),
        decreases n - start,
    {
        proof {
            lemma_line_end_bounds(s, start as int);
        }
        let mut end: usize = start;
        while end < n && text[end] != 10u8
            invariant
                n == s.len(),
                s == text@,
                start <= end <= n,
                line_end(s, start as int) == line_end(s, end as int),
            decreases n - end,
        {
            end += 1;
        }
        let stop: usize = if end < n && end > start && text[end - 1] == 13u8 {
            end - 1
        } else {
            end
        };
        let ghost content = line_content(s, start as int, end as int);
        proof {
            assert(end == line_end(s, start as int));
            let rest = lines_from(s, end + 1);
            let sub = ls.subrange(height as int, ls.len() as int);
            assert(lines_from(s, start as int) == seq![content] + rest);
            assert(sub =~= seq![content] + rest);
            assert(sub[0] == content);
            assert(height < ls.len());
            assert(ls[height as int] == content);
            assert forall|j: int| 0 <= j < rest.len() implies rest[j] == ls[height + 1 + j] by {
                assert(sub[j + 1] == rest[j]);
            }
            assert(rest =~= ls.subrange(height + 1, ls.len() as int));
            if end == n {
                assert(lines_from(s, n as int) =~= rest);
            }
        }
        let row_start = out.len();
        let mut c: usize = start;
        while c < stop
            invariant
                n == s.len(),
                s == text@,
                start <= c <= stop <= end <= n,
                content == s.subrange(start as int, stop as int),
                ls == lines(s),
                height < ls.len(),
                ls[height as int] == content,
                height > 0 ==> first_error_from(ls, ls[0].len(), 0) == first_error_from(
                    ls,
                    ls[0].len(),
                    height as int,
                ),
                first_bad_from(content, 0) == first_bad_from(content, c - start),
                out@ == pattern_cells(ls.take(height as int)) + row_cells(
                    content.take(c - start),
                ),
            decreases stop - c,
        {
            let b = text[c];
            if b != 88u8 && b != 45u8 {
                proof {
                    assert(first_bad_from(content, c - start) == c - start);
                    assert(line_error(content, ls[0].len(), height as int) == Some(
                        ParseError::InvalidCharacter { line: height, column: (c - start) as usize },
                    ));
                    assert(first_error_from(ls, ls[0].len(), height as int) == line_error(
                        content,
                        ls[0].len(),
                        height as int,
                    ));
                }
                return Err(ParseError::InvalidCharacter { line: height, column: c - start });
            }
            out.push(b == 88u8);
            proof {
                assert(row_cells(content.take(c + 1 - start)) =~= row_cells(
                    content.take(c - start),
                ).push(b == 88u8));
            }
            c += 1;
        }
        let len = stop - start;
        if height == 0 {
            width = len;
        }
        if len != width {
            return Err(ParseError::NonUniformRow { line: height });
        }
        proof {
            assert(content.take(len as int) =~= content);
            assert(ls.take(height + 1).drop_last() =~= ls.take(height as int));
        }
        height += 1;
        start = if end < n {
            end + 1
        } else {
            n
        };
    }
    proof {
        assert(lines_from(s, start as int).len() == 0);
        assert(height == ls.len());
        assert(ls.take(height as int) =~= ls);
    }
    Ok((out, (width, height)))
}

} // verus!
