//! The bootstrap buffer: a flat row-major store of cells, rectangular
//! views into it, and the plain-text reader (`.` dead, `O` alive, lines
//! starting with `!` skipped) that clients use to feed a starting pattern
//! into the evaluator.

use vstd::prelude::*;

use crate::grid::sub_grid;

verus! {

/// A rectangular block of cells, row-major.
pub struct StateBuffer {
    rows: usize,
    cols: usize,
    state: Vec<bool>,
}

/// A rectangular window into a row-major store: `rows` x `cols` cells
/// starting at `offset`, with consecutive rows `row_stride` apart.
pub struct StateBufferView {
    rows: usize,
    cols: usize,
    row_stride: usize,
    offset: usize,
    state: Vec<bool>,
}

impl StateBuffer {
    pub closed spec fn spec_rows(self) -> nat {
        self.rows as nat
    }

    pub closed spec fn spec_cols(self) -> nat {
        self.cols as nat
    }

    /// The store holds exactly the block.
    pub closed spec fn wf(self) -> bool {
        self.state@.len() == self.rows * self.cols
    }

    /// The block as a grid of rows.
    pub closed spec fn grid(self) -> Seq<Seq<bool>> {
        Seq::new(
            self.rows as nat,
            |i: int| Seq::new(self.cols as nat, |j: int| self.state@[i * self.cols + j]),
        )
    }

    /// Wrap a row-major store of `rows * cols` cells.
    pub fn new(state: Vec<bool>, rows: usize, cols: usize) -> (b: StateBuffer)
        requires
            state@.len() == rows * cols,
        ensures
            b.wf(),
            b.spec_rows() == rows,
            b.spec_cols() == cols,
            b.grid() == (Seq::new(
                rows as nat,
                |i: int| Seq::new(cols as nat, |j: int| state@[i * cols + j]),
            )),
    {
        let b = StateBuffer { rows, cols, state };
        proof {
            assert(b.grid() =~~= Seq::new(
                rows as nat,
                |i: int| Seq::new(cols as nat, |j: int| b.state@[i * cols + j]),
            ));
        }
        b
    }

    /// A view of the whole block.
    pub fn view(&self) -> (v: StateBufferView)
        requires
            self.wf(),
        ensures
            v.wf(),
            v.spec_rows() == self.spec_rows(),
            v.spec_cols() == self.spec_cols(),
            v.grid() == self.grid(),
    {
        let v = StateBufferView::new(clone_cells(&self.state), self.rows, self.cols);
        proof {
            assert(v.grid() =~~= self.grid());
        }
        v
    }
}

/// Copy a store of cells.
fn clone_cells(v: &Vec<bool>) -> (r: Vec<bool>)
    ensures
        r@ == v@,
{
    let mut r: Vec<bool> = Vec::new();
    let mut i: usize = 0;
    while i < v.len()
        invariant
            i <= v.len(),
            r@ == v@.subrange(0, i as int),
        decreases v.len() - i,
    {
        r.push(v[i]);
        i = i + 1;
    }
    proof {
        assert(v@.subrange(0, v@.len() as int) =~= v@);
    }
    r
}

impl StateBufferView {
    pub closed spec fn spec_rows(self) -> nat {
        self.rows as nat
    }

    pub closed spec fn spec_cols(self) -> nat {
        self.cols as nat
    }

    /// Every cell of the window lies inside the store.
    pub closed spec fn wf(self) -> bool {
        &&& self.cols <= self.row_stride
        &&& self.rows > 0 ==> self.offset + (self.rows - 1) * self.row_stride + self.cols
            <= self.state@.len()
    }

    /// The window as a grid of rows.
    pub closed spec fn grid(self) -> Seq<Seq<bool>> {
        Seq::new(
            self.rows as nat,
            |i: int|
                Seq::new(
                    self.cols as nat,
                    |j: int| self.state@[self.offset + i * self.row_stride + j],
                ),
        )
    }

    /// View a whole row-major store of `rows * cols` cells.
    pub fn new(buffer: Vec<bool>, rows: usize, cols: usize) -> (v: StateBufferView)
        requires
            buffer@.len() == rows * cols,
        ensures
            v.wf(),
            v.spec_rows() == rows,
            v.spec_cols() == cols,
            v.grid() == (Seq::new(
                rows as nat,
                |i: int| Seq::new(cols as nat, |j: int| buffer@[i * cols + j]),
            )),
    {
        proof {
            if rows > 0 {
                assert((rows - 1) * cols + cols == rows * cols) by (nonlinear_arith);
            }
        }
        let v = StateBufferView { rows, cols, row_stride: cols, offset: 0, state: buffer };
        proof {
            assert forall|i: int| 0 <= i < rows implies v.grid()[i] =~= Seq::new(
                cols as nat,
                |j: int| v.state@[i * cols + j],
            ) by {}
            assert(v.grid() =~= Seq::new(
                rows as nat,
                |i: int| Seq::new(cols as nat, |j: int| v.state@[i * cols + j]),
            ));
        }
        v
    }

    /// The grid is `rows` rows of `cols` cells each.
    pub proof fn lemma_grid_dims(self)
        ensures
            self.grid().len() == self.spec_rows(),
            forall|i: int|
                0 <= i < self.spec_rows() ==> (#[trigger] self.grid()[i]).len()
                    == self.spec_cols(),
    {
    }

    pub fn rows(&self) -> (r: usize)
        ensures
            r == self.spec_rows(),
    {
        self.rows
    }

    pub fn cols(&self) -> (c: usize)
        ensures
            c == self.spec_cols(),
    {
        self.cols
    }

    /// Read one cell.
    pub fn at(&self, row: usize, col: usize) -> (b: bool)
        requires
            self.wf(),
            row < self.spec_rows(),
            col < self.spec_cols(),
        ensures
            b == self.grid()[row as int][col as int],
    {
        let n = self.state.len();
        proof {
            assert(row * self.row_stride <= (self.rows - 1) * self.row_stride)
                by (nonlinear_arith)
                requires
                    0 <= row,
                    row < self.rows,
                    0 <= self.row_stride,
            ;
        }
        self.state[self.offset + row * self.row_stride + col]
    }

    /// The sub-window of the rows `row_start..row_end` and columns
    /// `col_start..col_end`.
    pub fn sub_rectangle(
        &self,
        row_start: usize,
        row_end: usize,
        col_start: usize,
        col_end: usize,
    ) -> (v: StateBufferView)
        requires
            self.wf(),
            row_start <= row_end <= self.spec_rows(),
            col_start <= col_end <= self.spec_cols(),
        ensures
            v.wf(),
            v.spec_rows() == row_end - row_start,
            v.spec_cols() == col_end - col_start,
            v.grid() == sub_grid(
                self.grid(),
                row_start as int,
                col_start as int,
                (row_end - row_start) as int,
                (col_end - col_start) as int,
            ),
    {
        proof {
            if row_end > row_start {
                assert(row_start * self.row_stride <= (self.rows - 1) * self.row_stride
                    && row_start * self.row_stride + (row_end - row_start - 1)
                    * self.row_stride == (row_end - 1) * self.row_stride && (row_end - 1)
                    * self.row_stride <= (self.rows - 1) * self.row_stride) by (nonlinear_arith)
                    requires
                        0 <= row_start,
                        row_start + 1 <= row_end,
                        row_end <= self.rows,
                        0 <= self.row_stride,
                ;
            }
        }
        let n = self.state.len();
        let off = if row_start < row_end {
            self.offset + row_start * self.row_stride + col_start
        } else {
            0
        };
        let v = StateBufferView {
            rows: row_end - row_start,
            cols: col_end - col_start,
            row_stride: self.row_stride,
            offset: off,
            state: clone_cells(&self.state),
        };
        proof {
            let nr = (row_end - row_start) as int;
            let nc = (col_end - col_start) as int;
            let sg = sub_grid(self.grid(), row_start as int, col_start as int, nr, nc);
            assert forall|i: int| 0 <= i < nr implies v.grid()[i] =~= sg[i] by {
                assert forall|j: int| 0 <= j < nc implies v.grid()[i][j] == sg[i][j] by {
                    assert(v.offset + i * v.row_stride + j == self.offset + (row_start + i)
                        * self.row_stride + (col_start + j)) by (nonlinear_arith)
                        requires
                            v.offset == self.offset + row_start * self.row_stride + col_start,
                            v.row_stride == self.row_stride,
                    ;
                    assert(sg[i][j] == self.grid()[row_start + i][col_start + j]);
                }
            }
            assert(v.grid() =~= sg);
        }
        v
    }
}

/// The index of the first line break at or after `from`, or the end.
pub open spec fn find_nl(s: Seq<char>, from: int) -> int
    decreases s.len() - from,
{
    if 0 <= from < s.len() {
        if s[from] == '\n' {
            from
        } else {
            find_nl(s, from + 1)
        }
    } else {
        s.len() as int
    }
}

/// A line without its trailing carriage return, if it carries one.
pub open spec fn strip_cr(l: Seq<char>) -> Seq<char> {
    if l.len() > 0 && l[l.len() - 1] == '\r' {
        l.drop_last()
    } else {
        l
    }
}

/// The text split into lines from `from` on, as `str::lines` splits: on
/// line breaks, with no final empty line, carriage returns stripped.
pub open spec fn split_lines(s: Seq<char>, from: int) -> Seq<Seq<char>>
    decreases s.len() - from,
{
    if 0 <= from < s.len() {
        let j = find_nl(s, from);
        if from <= j && j < s.len() {
            seq![strip_cr(s.subrange(from, j))] + split_lines(s, j + 1)
        } else if from <= j <= s.len() {
            seq![strip_cr(s.subrange(from, j))]
        } else {
            Seq::empty()
        }
    } else {
        Seq::empty()
    }
}

/// A comment line: it starts with `!`.
pub open spec fn is_comment(l: Seq<char>) -> bool {
    l.len() > 0 && l[0] == '!'
}

/// The lines from `from` on that are not comments, in order.
pub open spec fn kept_from(ls: Seq<Seq<char>>, from: int) -> Seq<Seq<char>>
    decreases ls.len() - from,
{
    if 0 <= from < ls.len() {
        if is_comment(ls[from]) {
            kept_from(ls, from + 1)
        } else {
            seq![ls[from]] + kept_from(ls, from + 1)
        }
    } else {
        Seq::empty()
    }
}

/// The longest length among the lines from `from` on.
pub open spec fn max_len_from(ls: Seq<Seq<char>>, from: int) -> nat
    decreases ls.len() - from,
{
    if 0 <= from < ls.len() {
        let rest = max_len_from(ls, from + 1);
        if ls[from].len() > rest {
            ls[from].len()
        } else {
            rest
        }
    } else {
        0
    }
}

/// The non-comment lines of a plain text.
pub open spec fn parse_lines(s: Seq<char>) -> Seq<Seq<char>> {
    kept_from(split_lines(s, 0), 0)
}

/// `find_nl` is what the obvious scan computes.
proof fn lemma_find_nl(s: Seq<char>, from: int, k: int)
    requires
        0 <= from <= k <= s.len(),
        forall|m: int| from <= m < k ==> s[m] != '\n',
        k == s.len() || s[k] == '\n',
    ensures
        find_nl(s, from) == k,
    decreases k - from,
{
    if from < k {
        lemma_find_nl(s, from + 1, k);
    }
}

/// The characters of a text, one by one.
fn collect_chars(s: &str) -> (cs: Vec<char>)
    ensures
        cs@ == s@,
{
    let n = s.unicode_len();
    let mut cs: Vec<char> = Vec::new();
    let mut i: usize = 0;
    while i < n
        invariant
            i <= n,
            n == s@.len(),
            cs@ == s@.subrange(0, i as int),
        decreases n - i,
    {
        cs.push(s.get_char(i));
        proof {
            assert(cs@ =~= s@.subrange(0, i + 1));
        }
        i = i + 1;
    }
    proof {
        assert(s@.subrange(0, n as int) =~= s@);
    }
    cs
}

/// Scan for the next line break.
fn find_nl_scan(cs: &Vec<char>, from: usize) -> (k: usize)
    requires
        from <= cs@.len(),
    ensures
        k == find_nl(cs@, from as int),
        from <= k <= cs@.len(),
    decreases cs@.len() - from,
{
    let mut k = from;
    while k < cs.len() && cs[k] != '\n'
        invariant
            from <= k <= cs@.len(),
            forall|m: int| from <= m < k ==> cs@[m] != '\n',
        decreases cs@.len() - k,
    {
        k = k + 1;
    }
    proof {
        lemma_find_nl(cs@, from as int, k as int);
    }
    k
}

/// Split a text into its lines.
fn split_text(cs: &Vec<char>, from: usize) -> (r: Vec<Vec<char>>)
    requires
        from <= cs@.len(),
    ensures
        r@.len() == split_lines(cs@, from as int).len(),
        forall|k: int|
            0 <= k < r@.len() ==> (#[trigger] r@[k])@ == split_lines(cs@, from as int)[k],
    decreases cs@.len() - from,
{
    if from >= cs.len() {
        return Vec::new();
    }
    let j = find_nl_scan(cs, from);
    let mut line: Vec<char> = Vec::new();
    let mut k = from;
    while k < j
        invariant
            from <= k <= j <= cs@.len(),
            line@ == cs@.subrange(from as int, k as int),
        decreases j - k,
    {
        line.push(cs[k]);
        proof {
            assert(line@ =~= cs@.subrange(from as int, k + 1));
        }
        k = k + 1;
    }
    if line.len() > 0 && line[line.len() - 1] == '\r' {
        line.pop();
        proof {
            assert(line@ =~= strip_cr(cs@.subrange(from as int, j as int)));
        }
    }
    proof {
        assert(line@ == strip_cr(cs@.subrange(from as int, j as int)));
    }
    let mut r: Vec<Vec<char>> = Vec::new();
    r.push(line);
    if j < cs.len() {
        let mut rest = split_text(cs, j + 1);
        r.append(&mut rest);
    }
    proof {
        let spec = split_lines(cs@, from as int);
        assert forall|k: int| 0 <= k < r@.len() implies (#[trigger] r@[k])@ == spec[k] by {}
    }
    r
}

/// Drop the comment lines.
fn keep_lines(lines: &Vec<Vec<char>>, from: usize, Ghost(ls): Ghost<Seq<Seq<char>>>) -> (r: Vec<
    Vec<char>,
>)
    requires
        from <= lines@.len(),
        ls.len() == lines@.len(),
        forall|k: int| 0 <= k < ls.len() ==> (#[trigger] lines@[k])@ == ls[k],
    ensures
        r@.len() == kept_from(ls, from as int).len(),
        forall|k: int| 0 <= k < r@.len() ==> (#[trigger] r@[k])@ == kept_from(ls, from as int)[k],
    decreases lines@.len() - from,
{
    if from >= lines.len() {
        return Vec::new();
    }
    let line = &lines[from];
    let comment = line.len() > 0 && line[0] == '!';
    proof {
        assert(comment == is_comment(ls[from as int]));
    }
    if comment {
        keep_lines(lines, from + 1, Ghost(ls))
    } else {
        let mut r: Vec<Vec<char>> = Vec::new();
        r.push(clone_line(line));
        let mut rest = keep_lines(lines, from + 1, Ghost(ls));
        r.append(&mut rest);
        r
    }
}

/// Copy a line.
fn clone_line(l: &Vec<char>) -> (r: Vec<char>)
    ensures
        r@ == l@,
{
    let mut r: Vec<char> = Vec::new();
    let mut i: usize = 0;
    while i < l.len()
        invariant
            i <= l@.len(),
            r@ == l@.subrange(0, i as int),
        decreases l@.len() - i,
    {
        r.push(l[i]);
        i = i + 1;
    }
    proof {
        assert(l@.subrange(0, l@.len() as int) =~= l@);
    }
    r
}

/// The longest line length.
fn longest_line(lines: &Vec<Vec<char>>, from: usize, Ghost(ls): Ghost<Seq<Seq<char>>>) -> (r:
    usize)
    requires
        from <= lines@.len(),
        ls.len() == lines@.len(),
        forall|k: int| 0 <= k < ls.len() ==> (#[trigger] lines@[k])@ == ls[k],
    ensures
        r == max_len_from(ls, from as int),
    decreases lines@.len() - from,
{
    if from >= lines.len() {
        return 0;
    }
    let rest = longest_line(lines, from + 1, Ghost(ls));
    let here = lines[from].len();
    if here > rest {
        here
    } else {
        rest
    }
}

/// Read a plain-text pattern: `.` for dead, `O` for alive, lines starting
/// with `!` skipped. The block is as tall as the number of kept lines and
/// as wide as the longest of them; short lines pad with dead cells.
#[verifier::rlimit(100)]
#[verifier::loop_isolation(false)]
pub fn parse_plaintext(s: &str) -> (r: StateBuffer)
    requires
        parse_lines(s@).len() > 0,
        forall|i: int, j: int|
            0 <= i < parse_lines(s@).len() && 0 <= j < parse_lines(s@)[i].len() ==> (
            #[trigger] parse_lines(s@)[i][j]) == '.' || parse_lines(s@)[i][j] == 'O',
        parse_lines(s@).len() * max_len_from(parse_lines(s@), 0) <= usize::MAX,
    ensures
        r.wf(),
        r.spec_rows() == parse_lines(s@).len(),
        r.spec_cols() == max_len_from(parse_lines(s@), 0),
        forall|i: int, j: int|
            0 <= i < r.spec_rows() && 0 <= j < r.spec_cols() ==> (#[trigger] r.grid()[i][j]) == (
            j < parse_lines(s@)[i].len() && parse_lines(s@)[i][j] == 'O'),
{
    let cs = collect_chars(s);
    let lines = split_text(&cs, 0);
    let ghost ls = split_lines(cs@, 0);
    proof {
        assert(ls == split_lines(s@, 0));
    }
    let kept = keep_lines(&lines, 0, Ghost(ls));
    let ghost kl = kept_from(ls, 0);
    proof {
        assert(kl == parse_lines(s@));
    }
    let rows = kept.len();
    let cols = longest_line(&kept, 0, Ghost(Seq::new(kept@.len(), |k: int| kept@[k]@)));
    proof {
        assert(max_len_from(Seq::new(kept@.len(), |k: int| kept@[k]@), 0) == max_len_from(
            kl,
            0,
        )) by {
            assert(Seq::new(kept@.len(), |k: int| kept@[k]@) =~~= kl);
        }
    }
    let mut buf: Vec<bool> = Vec::new();
    let mut i: usize = 0;
    while i < rows
        invariant
            i <= rows,
            buf@.len() == i * cols,
            forall|a: int, b: int|
                0 <= a < i && 0 <= b < cols ==> #[trigger] buf@[a * cols + b] == (b
                    < kl[a].len() && kl[a][b] == 'O'),
        decreases rows - i,
    {
        let line = &kept[i];
        let mut j: usize = 0;
        while j < cols
            invariant
                j <= cols,
                buf@.len() == i * cols + j,
                forall|a: int, b: int|
                    0 <= a < i && 0 <= b < cols ==> #[trigger] buf@[a * cols + b] == (b
                        < kl[a].len() && kl[a][b] == 'O'),
                forall|b: int|
                    0 <= b < j ==> #[trigger] buf@[i * cols + b] == (b < kl[i as int].len()
                        && kl[i as int][b] == 'O'),
            decreases cols - j,
        {
            let cell = if j < line.len() {
                line[j] == 'O'
            } else {
                false
            };
            proof {
                assert(cell == (j < kl[i as int].len() && kl[i as int][j as int] == 'O'));
            }
            buf.push(cell);
            proof {
                assert forall|a: int, b: int|
                    0 <= a < i && 0 <= b < cols implies #[trigger] buf@[a * cols + b] == (b
                    < kl[a].len() && kl[a][b] == 'O') by {
                    assert(a * cols + b < i * cols) by (nonlinear_arith)
                        requires
                            0 <= a,
                            a < i,
                            0 <= b,
                            b < cols,
                    ;
                }
            }
            j = j + 1;
        }
        proof {
            assert(i * cols + cols == (i + 1) * cols) by (nonlinear_arith);
            assert forall|a: int, b: int|
                0 <= a < i + 1 && 0 <= b < cols implies #[trigger] buf@[a * cols + b] == (b
                < kl[a].len() && kl[a][b] == 'O') by {
                if a < i {
                } else {
                    assert(a == i);
                }
            }
        }
        i = i + 1;
    }
    let r = StateBuffer::new(buf, rows, cols);
    proof {
        assert forall|a: int, b: int|
            0 <= a < r.spec_rows() && 0 <= b < r.spec_cols() implies (#[trigger] r.grid()[a][b])
            == (b < parse_lines(s@)[a].len() && parse_lines(s@)[a][b] == 'O') by {
            assert(r.grid()[a][b] == buf@[a * cols + b]);
        }
    }
    r
}

} // verus!
