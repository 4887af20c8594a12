use vstd::prelude::*;

use crate::chars::{char_utf8_len, chars_of, utf8_len, utf8_size};
use crate::lexer::{run_end, Run};

verus! {

/// The character index where line `line` (1-based) of `src` starts; the end of
/// `src` if it has fewer lines.
pub open spec fn line_start(src: Seq<char>, line: nat) -> int
    decreases line,
{
    if line <= 1 {
        0
    } else {
        let prev = line_start(src, (line - 1) as nat);
        let nl = run_end(src, prev, Run::RestOfLine);
        if nl < src.len() {
            nl + 1
        } else {
            src.len() as int
        }
    }
}

/// The character index of `(line, column)` in `src`: the column is counted
/// from the line's start and stops at the line's end.
pub open spec fn position_of(src: Seq<char>, line: nat, column: nat) -> int {
    let start = line_start(src, line);
    let end = run_end(src, start, Run::RestOfLine);
    if column == 0 || start + column - 1 > end {
        if column == 0 {
            start
        } else {
            end
        }
    } else {
        start + column - 1
    }
}

proof fn lemma_rest_of_line_bounds(src: Seq<char>, p: int)
    requires
        0 <= p <= src.len(),
    ensures
        p <= run_end(src, p, Run::RestOfLine) <= src.len(),
        run_end(src, p, Run::RestOfLine) < src.len() ==> src[run_end(src, p, Run::RestOfLine)] == '\n',
        forall|i: int| p <= i < run_end(src, p, Run::RestOfLine) ==> src[i] != '\n',
    decreases src.len() - p,
{
    if p < src.len() && src[p] != '\n' {
        lemma_rest_of_line_bounds(src, p + 1);
    }
}

proof fn lemma_line_start_bounds(src: Seq<char>, line: nat)
    ensures
        0 <= line_start(src, line) <= src.len(),
    decreases line,
{
    if line > 1 {
        lemma_line_start_bounds(src, (line - 1) as nat);
        lemma_rest_of_line_bounds(src, line_start(src, (line - 1) as nat));
    }
}

proof fn lemma_utf8_size_bound(s: Seq<char>)
    ensures
        utf8_size(s) <= 4 * s.len(),
    decreases s.len(),
{
    if s.len() > 0 {
        lemma_utf8_size_bound(s.drop_last());
    }
}

/// The byte offset in `src` of the 1-based `line` and `column`: a line past
/// the last gives the end of `src`, a column past the line's end gives the
/// line's end.
pub fn calculate_offset(src: &str, line: usize, column: usize) -> (r: usize)
    requires
        4 * src@.len() <= usize::MAX,
    ensures
        r == utf8_size(src@.take(position_of(src@, line as nat, column as nat))),
{
    let chars = chars_of(src);
    let n = chars.len();
    let ghost s = chars@;
    let mut i: usize = 0;
    let mut current_line: usize = 1;
    let mut offset: usize = 0;
    proof {
        lemma_line_start_bounds(s, 1);
    }
    while current_line < line
        invariant
            s == chars@,
            s == src@,
            n == s.len(),
            4 * n <= usize::MAX,
            1 <= current_line,
            current_line <= line || line <= 1,
            i == line_start(s, current_line as nat),
            i <= n,
            offset == utf8_size(s.take(i as int)),
            line_start(s, line as nat) == if current_line < line {
                line_start(s, line as nat)
            } else {
                i as int
            },
        decreases line - current_line,
    {
        proof {
            lemma_rest_of_line_bounds(s, i as int);
        }
        let ghost start = i;
        while i < n && chars[i] != '\n'
            invariant
                s == chars@,
                n == s.len(),
                4 * n <= usize::MAX,
                start <= i <= n,
                run_end(s, start as int, Run::RestOfLine) == run_end(s, i as int, Run::RestOfLine),
                offset == utf8_size(s.take(i as int)),
            decreases n - i,
        {
            proof {
                assert(s.take(i + 1).drop_last() =~= s.take(i as int));
                lemma_utf8_size_bound(s.take(i + 1));
            }
            offset = offset + char_utf8_len(chars[i]);
            i = i + 1;
        }
        if i >= n {
            proof {
                lemma_line_start_after_end(s, current_line as nat, line as nat);
            }
            return offset;
        }
        proof {
            assert(s.take(i + 1).drop_last() =~= s.take(i as int));
            lemma_utf8_size_bound(s.take(i + 1));
        }
        offset = offset + char_utf8_len(chars[i]);
        i = i + 1;
        current_line = current_line + 1;
    }
    let ghost start = i;
    let mut current_column: usize = 1;
    while current_column < column && i < n && chars[i] != '\n'
        invariant
            s == chars@,
            s == src@,
            n == s.len(),
            4 * n <= usize::MAX,
            start == line_start(s, line as nat),
            1 <= current_column,
            i == start + current_column - 1,
            i <= n,
            run_end(s, start as int, Run::RestOfLine) == run_end(s, i as int, Run::RestOfLine),
            offset == utf8_size(s.take(i as int)),
            current_column <= column || column <= 1,
            column <= 1 ==> current_column == 1,
        decreases n - i,
    {
        proof {
            assert(s.take(i + 1).drop_last() =~= s.take(i as int));
            lemma_utf8_size_bound(s.take(i + 1));
        }
        offset = offset + char_utf8_len(chars[i]);
        i = i + 1;
        current_column = current_column + 1;
    }
    proof {
        lemma_rest_of_line_bounds(s, i as int);
        let end = run_end(s, start as int, Run::RestOfLine);
        if current_column < column {
            assert(i >= n || s[i as int] == '\n');
            assert(run_end(s, i as int, Run::RestOfLine) == i);
            assert(i == end);
        } else {
            assert(i <= end);
        }
        assert(i == position_of(s, line as nat, column as nat));
    }
    offset
}

proof fn lemma_line_start_after_end(s: Seq<char>, from: nat, to: nat)
    requires
        1 <= from,
        line_start(s, from) <= s.len(),
        run_end(s, line_start(s, from), Run::RestOfLine) >= s.len(),
    ensures
        from < to ==> line_start(s, to) == s.len(),
    decreases to,
{
    if from < to {
        if from + 1 < to {
            lemma_line_start_after_end(s, from, (to - 1) as nat);
            lemma_rest_of_line_bounds(s, s.len() as int);
        }
    }
}

} // verus!
