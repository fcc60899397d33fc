//! The screen buffer: a fixed grid of character cells and a cursor.
//!
//! `ScreenView` is the mathematical model of a buffer — dimensions, a
//! sequence of rows of characters, and the cursor position — and every
//! buffer operation has a spec-level counterpart on it.  The executable
//! `TerminalBuffer` mirrors the model cell for cell; each mutating
//! operation's contract says that the new view is exactly the spec
//! operation applied to the old view, and that the cursor stays inside
//! `[0, rows) x [0, cols]`.

use vstd::prelude::*;

verus! {

/// A single character cell of the grid; a blank cell holds a space.
#[derive(Clone, Copy, Debug)]
pub struct Cell {
    pub c: char,
}

impl Default for Cell {
    fn default() -> (cell: Cell)
        ensures
            cell.c == ' ',
    {
        Cell { c: ' ' }
    }
}

/// A row of `cols` blank cells.
pub open spec fn blank_row(cols: nat) -> Seq<char> {
    Seq::new(cols, |j: int| ' ')
}

/// `row` with the cells at indices `[from, to)` blanked.
pub open spec fn row_blanked(row: Seq<char>, from: int, to: int) -> Seq<char> {
    Seq::new(row.len(), |j: int| if from <= j < to { ' ' } else { row[j] })
}

/// Mathematical model of a screen buffer: dimensions, grid contents in
/// row-major order, and the cursor.  `cursor_col` may equal `cols` to
/// record a pending wrap; `cursor_row` is always a valid row index.
#[verifier::ext_equal]
pub struct ScreenView {
    pub rows: nat,
    pub cols: nat,
    pub grid: Seq<Seq<char>>,
    pub cursor_row: nat,
    pub cursor_col: nat,
}

impl ScreenView {
    /// Well-formedness: positive dimensions, a full `rows x cols` grid,
    /// and a cursor inside `[0, rows) x [0, cols]`.
    pub open spec fn wf(self) -> bool {
        &&& self.rows > 0
        &&& self.cols > 0
        &&& self.grid.len() == self.rows
        &&& forall|r: int| 0 <= r < self.rows ==> (#[trigger] self.grid[r]).len() == self.cols
        &&& self.cursor_row < self.rows
        &&& self.cursor_col <= self.cols
    }

    /// The screen whose every cell is blank and whose cursor is at the origin.
    pub open spec fn blank(rows: nat, cols: nat) -> ScreenView {
        ScreenView {
            rows,
            cols,
            grid: Seq::new(rows, |r: int| blank_row(cols)),
            cursor_row: 0,
            cursor_col: 0,
        }
    }

    /// Write `ch` at the cursor and advance the cursor one column, when the
    /// cursor addresses a cell of the grid; otherwise leave the screen as is.
    pub open spec fn put(self, ch: char) -> ScreenView {
        if self.cursor_row < self.rows && self.cursor_col < self.cols {
            ScreenView {
                grid: self.grid.update(
                    self.cursor_row as int,
                    self.grid[self.cursor_row as int].update(self.cursor_col as int, ch),
                ),
                cursor_col: self.cursor_col + 1,
                ..self
            }
        } else {
            self
        }
    }

    /// Print `ch`: wrap to a fresh line first when the cursor is past the
    /// last column, then write the character and advance the cursor.
    pub open spec fn print(self, ch: char) -> ScreenView {
        if self.cursor_col >= self.cols {
            self.newline().put(ch)
        } else {
            self.put(ch)
        }
    }

    /// Move to column 0 of the next row; on the last row, scroll instead:
    /// drop the top row and append a blank row at the bottom.
    pub open spec fn newline(self) -> ScreenView {
        if self.cursor_row + 1 >= self.rows {
            ScreenView {
                grid: self.grid.subrange(1, self.grid.len() as int).push(blank_row(self.cols)),
                cursor_col: 0,
                ..self
            }
        } else {
            ScreenView { cursor_row: self.cursor_row + 1, cursor_col: 0, ..self }
        }
    }

    /// Move the cursor to column 0 of the current row.
    pub open spec fn carriage_return(self) -> ScreenView {
        ScreenView { cursor_col: 0, ..self }
    }

    /// Move the cursor one column left, stopping at column 0.
    pub open spec fn backspace(self) -> ScreenView {
        ScreenView {
            cursor_col: if self.cursor_col > 0 {
                (self.cursor_col - 1) as nat
            } else {
                0
            },
            ..self
        }
    }

    /// Advance the cursor to the next multiple-of-8 tab stop, clamped to
    /// the last column.
    pub open spec fn tab(self) -> ScreenView {
        ScreenView {
            cursor_col: if (self.cursor_col / 8 + 1) * 8 <= self.cols - 1 {
                ((self.cursor_col / 8 + 1) * 8) as nat
            } else {
                (self.cols - 1) as nat
            },
            ..self
        }
    }

    /// Move the cursor up by `n`, stopping at the top row.
    pub open spec fn cursor_up(self, n: nat) -> ScreenView {
        ScreenView {
            cursor_row: if self.cursor_row >= n {
                (self.cursor_row - n) as nat
            } else {
                0
            },
            ..self
        }
    }

    /// Move the cursor down by `n`, stopping at the bottom row.
    pub open spec fn cursor_down(self, n: nat) -> ScreenView {
        ScreenView {
            cursor_row: if self.cursor_row + n <= self.rows - 1 {
                self.cursor_row + n
            } else {
                (self.rows - 1) as nat
            },
            ..self
        }
    }

    /// Move the cursor right by `n`, stopping at the last column.
    pub open spec fn cursor_forward(self, n: nat) -> ScreenView {
        ScreenView {
            cursor_col: if self.cursor_col + n <= self.cols - 1 {
                self.cursor_col + n
            } else {
                (self.cols - 1) as nat
            },
            ..self
        }
    }

    /// Move the cursor left by `n`, stopping at column 0.
    pub open spec fn cursor_back(self, n: nat) -> ScreenView {
        ScreenView {
            cursor_col: if self.cursor_col >= n {
                (self.cursor_col - n) as nat
            } else {
                0
            },
            ..self
        }
    }

    /// The text shown for this screen: one line per row, each trimmed of
    /// trailing blanks, joined by line breaks, with trailing all-blank
    /// rows of the grid dropped entirely.
    pub open spec fn render(self) -> Seq<char> {
        join_rows(self.grid.subrange(0, visible_count(self.grid) as int))
    }

    /// Erase part of the cursor's row: mode 0 from the cursor to the end,
    /// mode 1 from the start through the cursor, mode 2 the whole row.
    /// Any other mode leaves the screen unchanged.
    pub open spec fn erase_in_line(self, mode: u16) -> ScreenView {
        let row = self.grid[self.cursor_row as int];
        if mode == 0 {
            ScreenView {
                grid: self.grid.update(
                    self.cursor_row as int,
                    row_blanked(row, self.cursor_col as int, self.cols as int),
                ),
                ..self
            }
        } else if mode == 1 {
            ScreenView {
                grid: self.grid.update(
                    self.cursor_row as int,
                    row_blanked(row, 0, self.cursor_col as int + 1),
                ),
                ..self
            }
        } else if mode == 2 {
            ScreenView {
                grid: self.grid.update(self.cursor_row as int, row_blanked(row, 0, self.cols as int)),
                ..self
            }
        } else {
            self
        }
    }

    /// Erase part of the screen: mode 0 from the cursor to the end, mode 1
    /// from the start through the cursor, modes 2 and 3 the whole grid with
    /// the cursor reset to the origin.  Any other mode leaves the screen
    /// unchanged.
    pub open spec fn erase_in_display(self, mode: u16) -> ScreenView {
        if mode == 0 {
            ScreenView {
                grid: Seq::new(
                    self.grid.len(),
                    |r: int|
                        if r < self.cursor_row {
                            self.grid[r]
                        } else if r == self.cursor_row {
                            row_blanked(self.grid[r], self.cursor_col as int, self.cols as int)
                        } else {
                            row_blanked(self.grid[r], 0, self.cols as int)
                        },
                ),
                ..self
            }
        } else if mode == 1 {
            ScreenView {
                grid: Seq::new(
                    self.grid.len(),
                    |r: int|
                        if r < self.cursor_row {
                            row_blanked(self.grid[r], 0, self.cols as int)
                        } else if r == self.cursor_row {
                            row_blanked(self.grid[r], 0, self.cursor_col as int + 1)
                        } else {
                            self.grid[r]
                        },
                ),
                ..self
            }
        } else if mode == 2 || mode == 3 {
            ScreenView {
                grid: Seq::new(self.grid.len(), |r: int| row_blanked(self.grid[r], 0, self.cols as int)),
                cursor_row: 0,
                cursor_col: 0,
                ..self
            }
        } else {
            self
        }
    }

    /// Place the cursor at the given 1-based coordinates, clamping each
    /// independently into the grid; 0 is treated as 1.
    pub open spec fn set_cursor_pos(self, row: nat, col: nat) -> ScreenView {
        ScreenView {
            cursor_row: if row >= 1 {
                if row - 1 <= self.rows - 1 {
                    (row - 1) as nat
                } else {
                    (self.rows - 1) as nat
                }
            } else {
                0
            },
            cursor_col: if col >= 1 {
                if col - 1 <= self.cols - 1 {
                    (col - 1) as nat
                } else {
                    (self.cols - 1) as nat
                }
            } else {
                0
            },
            ..self
        }
    }
}

/// `row` with its trailing blank cells removed.
pub open spec fn trim_row(row: Seq<char>) -> Seq<char>
    decreases row.len(),
{
    if row.len() == 0 {
        row
    } else if row.last() == ' ' {
        trim_row(row.drop_last())
    } else {
        row
    }
}

/// The number of leading rows left after dropping every trailing
/// all-blank row of the grid.
pub open spec fn visible_count(grid: Seq<Seq<char>>) -> nat
    decreases grid.len(),
{
    if grid.len() == 0 {
        0
    } else if trim_row(grid.last()).len() == 0 {
        visible_count(grid.drop_last())
    } else {
        grid.len()
    }
}

/// The given rows, each trimmed of trailing blanks, joined by line breaks.
pub open spec fn join_rows(rows: Seq<Seq<char>>) -> Seq<char>
    decreases rows.len(),
{
    if rows.len() == 0 {
        Seq::empty()
    } else if rows.len() == 1 {
        trim_row(rows[0])
    } else {
        join_rows(rows.drop_last()) + seq!['\n'] + trim_row(rows.last())
    }
}

/// A trimmed row is a prefix of the row it came from.
pub proof fn lemma_trim_row_prefix(s: Seq<char>)
    ensures
        trim_row(s).len() <= s.len(),
        trim_row(s) == s.subrange(0, trim_row(s).len() as int),
    decreases s.len(),
{
    if s.len() == 0 {
        assert(trim_row(s) =~= s.subrange(0, 0));
    } else if s.last() == ' ' {
        lemma_trim_row_prefix(s.drop_last());
        assert(s.drop_last() =~= s.subrange(0, s.len() - 1));
        assert(s.drop_last().subrange(0, trim_row(s.drop_last()).len() as int)
            =~= s.subrange(0, trim_row(s).len() as int));
    } else {
        assert(trim_row(s) =~= s.subrange(0, s.len() as int));
    }
}

/// `v` after printing the characters of `s` one by one.
pub open spec fn print_seq(v: ScreenView, s: Seq<char>) -> ScreenView
    decreases s.len(),
{
    if s.len() == 0 {
        v
    } else {
        print_seq(v.print(s[0]), s.subrange(1, s.len() as int))
    }
}

/// Law: no screen operation moves the cursor out of
/// `[0, rows) x [0, cols]` or changes the dimensions or the number and
/// width of the rows — every operation takes a well-formed screen to a
/// well-formed screen.
pub proof fn lemma_ops_preserve_wf(v: ScreenView, c: char, n: nat, row: nat, col: nat, mode: u16)
    requires
        v.wf(),
    ensures
        v.print(c).wf() && v.print(c).rows == v.rows && v.print(c).cols == v.cols,
        v.newline().wf() && v.newline().rows == v.rows && v.newline().cols == v.cols,
        v.carriage_return().wf(),
        v.backspace().wf(),
        v.tab().wf(),
        v.cursor_up(n).wf(),
        v.cursor_down(n).wf(),
        v.cursor_forward(n).wf(),
        v.cursor_back(n).wf(),
        v.set_cursor_pos(row, col).wf(),
        v.erase_in_line(mode).wf() && v.erase_in_line(mode).rows == v.rows
            && v.erase_in_line(mode).cols == v.cols,
        v.erase_in_display(mode).wf() && v.erase_in_display(mode).rows == v.rows
            && v.erase_in_display(mode).cols == v.cols,
{
    assert(v.newline().wf()) by {
        let w = v.newline();
        if v.cursor_row + 1 >= v.rows {
            assert forall|r: int| 0 <= r < w.rows implies (#[trigger] w.grid[r]).len() == w.cols by {
                if r < w.rows - 1 {
                    assert(w.grid[r] == v.grid[r + 1]);
                } else {
                    assert(w.grid[r] == blank_row(v.cols));
                }
            }
        }
    }
    assert(v.print(c).wf() && v.print(c).rows == v.rows && v.print(c).cols == v.cols) by {
        let u = if v.cursor_col >= v.cols {
            v.newline()
        } else {
            v
        };
        if u.cursor_row < u.rows && u.cursor_col < u.cols {
            let w = u.put(c);
            assert forall|r: int| 0 <= r < w.rows implies (#[trigger] w.grid[r]).len() == w.cols by {
                if r != u.cursor_row {
                    assert(w.grid[r] == u.grid[r]);
                }
            }
        }
    }
    assert(v.erase_in_line(mode).wf() && v.erase_in_line(mode).rows == v.rows
        && v.erase_in_line(mode).cols == v.cols) by {
        let w = v.erase_in_line(mode);
        assert forall|r: int| 0 <= r < w.rows implies (#[trigger] w.grid[r]).len() == w.cols by {
            if r != v.cursor_row {
                assert(w.grid[r] == v.grid[r]);
            }
        }
    }
    assert(v.erase_in_display(mode).wf() && v.erase_in_display(mode).rows == v.rows
        && v.erase_in_display(mode).cols == v.cols) by {
        let w = v.erase_in_display(mode);
        assert forall|r: int| 0 <= r < w.rows implies (#[trigger] w.grid[r]).len() == w.cols by {
            assert(v.grid[r].len() == v.cols);
        }
    }
}

/// The row written when `s` is printed from column `from` of `row`.
pub open spec fn row_written(row: Seq<char>, from: int, s: Seq<char>) -> Seq<char> {
    Seq::new(row.len(), |j: int| if from <= j < from + s.len() {
        s[j - from]
    } else {
        row[j]
    })
}

/// Printing characters that fit in the cursor's row writes them into
/// that row left to right and moves the cursor past them; nothing else
/// changes.
pub proof fn lemma_print_fills(v: ScreenView, s: Seq<char>)
    requires
        v.wf(),
        v.cursor_col + s.len() <= v.cols,
    ensures
        ({
            let w = print_seq(v, s);
            &&& w.rows == v.rows
            &&& w.cols == v.cols
            &&& w.cursor_row == v.cursor_row
            &&& w.cursor_col == v.cursor_col + s.len()
            &&& w.grid == v.grid.update(
                v.cursor_row as int,
                row_written(v.grid[v.cursor_row as int], v.cursor_col as int, s),
            )
            &&& w.wf()
        }),
    decreases s.len(),
{
    let cr = v.cursor_row as int;
    if s.len() == 0 {
        assert(row_written(v.grid[cr], v.cursor_col as int, s) =~= v.grid[cr]);
        assert(v.grid.update(cr, v.grid[cr]) =~~= v.grid);
    } else {
        let v1 = v.print(s[0]);
        lemma_ops_preserve_wf(v, s[0], 0, 0, 0, 0);
        assert(v1 == v.put(s[0]));
        let tail = s.subrange(1, s.len() as int);
        lemma_print_fills(v1, tail);
        let w = print_seq(v1, tail);
        assert(print_seq(v, s) == w);
        assert(v1.grid[cr] == v.grid[cr].update(v.cursor_col as int, s[0]));
        assert(row_written(v1.grid[cr], v.cursor_col as int + 1, tail)
            =~= row_written(v.grid[cr], v.cursor_col as int, s));
        assert(w.grid =~~= v.grid.update(
            cr,
            row_written(v.grid[cr], v.cursor_col as int, s),
        ));
    }
}

/// Law: with the cursor at the start of the bottom row, printing a full
/// row of characters and then one more scrolls exactly once — every row
/// moves up one place, the filled row becomes the next-to-last row, and
/// the extra character stands at column 0 of a fresh bottom row with the
/// cursor just after it.
pub proof fn lemma_print_wrap_scrolls(v: ScreenView, s: Seq<char>, c: char)
    requires
        v.wf(),
        v.cursor_row + 1 == v.rows,
        v.cursor_col == 0,
        s.len() == v.cols,
    ensures
        ({
            let w = print_seq(v, s).print(c);
            &&& w.rows == v.rows
            &&& w.cols == v.cols
            &&& w.cursor_row + 1 == v.rows
            &&& w.cursor_col == 1
            &&& forall|r: int| 0 <= r < v.rows - 2 ==> #[trigger] w.grid[r] == v.grid[r + 1]
            &&& v.rows >= 2 ==> w.grid[v.rows - 2] == s
            &&& w.grid[v.rows - 1] == blank_row(v.cols).update(0, c)
        }),
{
    let cr = v.cursor_row as int;
    lemma_print_fills(v, s);
    let u = print_seq(v, s);
    assert(u.grid[cr] == row_written(v.grid[cr], 0, s));
    assert(row_written(v.grid[cr], 0, s) =~= s);
    assert(u.cursor_col == v.cols);
    let un = u.newline();
    assert(un.grid == u.grid.subrange(1, u.grid.len() as int).push(blank_row(v.cols)));
    lemma_ops_preserve_wf(u, c, 0, 0, 0, 0);
    let w = u.print(c);
    assert(w == un.put(c));
    assert(un.grid[v.rows - 1] == blank_row(v.cols));
    assert(w.grid[v.rows - 1] == blank_row(v.cols).update(0, c));
    assert forall|r: int| 0 <= r < v.rows - 2 implies #[trigger] w.grid[r] == v.grid[r + 1] by {
        assert(w.grid[r] == un.grid[r]);
        assert(un.grid[r] == u.grid[r + 1]);
        assert(u.grid[r + 1] == v.grid[r + 1]);
    }
    if v.rows >= 2 {
        assert(w.grid[v.rows - 2] == u.grid[v.rows - 1]);
    }
}

/// Every character of a fully blanked row is a space.
pub proof fn lemma_trim_all_blank(s: Seq<char>)
    requires
        forall|j: int| 0 <= j < s.len() ==> s[j] == ' ',
    ensures
        trim_row(s).len() == 0,
    decreases s.len(),
{
    if s.len() > 0 {
        lemma_trim_all_blank(s.drop_last());
    }
}

/// Law: erasing the whole display blanks every cell and homes the
/// cursor, so the rendered snapshot is the empty text.
pub proof fn lemma_erase_display_renders_empty(v: ScreenView, mode: u16)
    requires
        v.wf(),
        mode == 2 || mode == 3,
    ensures
        v.erase_in_display(mode).render() == Seq::<char>::empty(),
        v.erase_in_display(mode).cursor_row == 0,
        v.erase_in_display(mode).cursor_col == 0,
{
    let w = v.erase_in_display(mode);
    assert forall|r: int| 0 <= r < w.grid.len() implies trim_row(#[trigger] w.grid[r]).len() == 0 by {
        assert(w.grid[r] == row_blanked(v.grid[r], 0, v.cols as int));
        assert(forall|j: int| 0 <= j < w.grid[r].len() ==> w.grid[r][j] == ' ');
        lemma_trim_all_blank(w.grid[r]);
    }
    lemma_visible_count_all_blank(w.grid);
    assert(w.grid.subrange(0, 0) =~= Seq::<Seq<char>>::empty());
}

/// A grid whose every row trims to nothing has no visible rows.
pub proof fn lemma_visible_count_all_blank(grid: Seq<Seq<char>>)
    requires
        forall|r: int| 0 <= r < grid.len() ==> trim_row(#[trigger] grid[r]).len() == 0,
    ensures
        visible_count(grid) == 0,
    decreases grid.len(),
{
    if grid.len() > 0 {
        lemma_visible_count_all_blank(grid.drop_last());
    }
}

/// Law: erasing within a line is idempotent — erasing the same span of
/// the same row twice leaves exactly the state one erase leaves.
pub proof fn lemma_erase_in_line_idempotent(v: ScreenView, mode: u16)
    requires
        v.wf(),
    ensures
        v.erase_in_line(mode).erase_in_line(mode) == v.erase_in_line(mode),
{
    let w = v.erase_in_line(mode);
    if mode == 0 || mode == 1 || mode == 2 {
        let cr = v.cursor_row as int;
        assert(w.grid[cr].len() == v.grid[cr].len());
        assert(w.erase_in_line(mode).grid =~~= w.grid);
        assert(w.erase_in_line(mode) =~= w);
    }
}

/// Relies on `String`'s `FromIterator<char>` implementation: collecting
/// an iterator of characters yields the string of exactly those
/// characters, in order.
#[verifier::external_body]
fn chars_to_string(chars: &Vec<char>) -> (out: String)
    ensures
        out@ == chars@,
{
    chars.iter().collect()
}

/// Terminal screen buffer: a `rows x cols` grid of cells plus the cursor.
pub struct TerminalBuffer {
    pub cols: usize,
    pub rows: usize,
    pub grid: Vec<Vec<Cell>>,
    pub cursor_row: usize,
    pub cursor_col: usize,
}

impl View for TerminalBuffer {
    type V = ScreenView;

    open spec fn view(&self) -> ScreenView {
        ScreenView {
            rows: self.rows as nat,
            cols: self.cols as nat,
            grid: Seq::new(
                self.grid@.len(),
                |r: int| Seq::new(self.grid@[r]@.len(), |j: int| self.grid@[r]@[j].c),
            ),
            cursor_row: self.cursor_row as nat,
            cursor_col: self.cursor_col as nat,
        }
    }
}

impl TerminalBuffer {
    /// Shorthand for well-formedness of the buffer's model.
    pub open spec fn wf(&self) -> bool {
        self@.wf()
    }

    /// A fresh all-blank buffer with the cursor at the origin.
    pub fn new(cols: usize, rows: usize) -> (buf: TerminalBuffer)
        requires
            cols >= 1,
            rows >= 1,
        ensures
            buf@ == ScreenView::blank(rows as nat, cols as nat),
            buf.wf(),
    {
        let mut grid: Vec<Vec<Cell>> = Vec::new();
        let mut r: usize = 0;
        while r < rows
            invariant
                r <= rows,
                grid@.len() == r,
                forall|i: int| #![auto] 0 <= i < r ==> grid@[i]@ =~= Seq::new(
                    cols as nat,
                    |j: int| Cell { c: ' ' },
                ),
            decreases rows - r,
        {
            let mut row: Vec<Cell> = Vec::new();
            let mut j: usize = 0;
            while j < cols
                invariant
                    j <= cols,
                    row@ =~= Seq::new(j as nat, |k: int| Cell { c: ' ' }),
                decreases cols - j,
            {
                row.push(Cell { c: ' ' });
                j += 1;
            }
            grid.push(row);
            r += 1;
        }
        let buf = TerminalBuffer { cols, rows, grid, cursor_row: 0, cursor_col: 0 };
        proof {
            assert(buf@.grid =~~= ScreenView::blank(rows as nat, cols as nat).grid);
            assert(buf@ =~= ScreenView::blank(rows as nat, cols as nat));
        }
        buf
    }

    /// Print a character at the cursor, wrapping to a fresh line first when
    /// the cursor is past the last column.
    pub fn print(&mut self, c: char)
        requires
            old(self).wf(),
        ensures
            final(self)@ == old(self)@.print(c),
            final(self).wf(),
    {
        if self.cursor_col >= self.cols {
            self.newline();
        }
        if self.cursor_row < self.rows && self.cursor_col < self.cols {
            let ghost pre = self@;
            proof {
                assert(self.grid@.len() == pre.grid.len());
                assert(pre.grid[self.cursor_row as int].len() == pre.cols);
                assert(self.grid@[self.cursor_row as int]@.len() == pre.cols);
            }
            self.grid[self.cursor_row][self.cursor_col] = Cell { c };
            self.cursor_col = self.cursor_col + 1;
            proof {
                assert(self@.grid =~~= pre.put(c).grid);
                assert(self@ =~= pre.put(c));
            }
        }
    }

    /// Move to column 0 of the next row, scrolling when already on the
    /// last row.
    pub fn newline(&mut self)
        requires
            old(self).wf(),
        ensures
            final(self)@ == old(self)@.newline(),
            final(self).wf(),
    {
        self.cursor_col = 0;
        if self.cursor_row + 1 >= self.rows {
            let ghost pre = self@;
            self.grid.remove(0);
            let mut row: Vec<Cell> = Vec::new();
            let mut j: usize = 0;
            while j < self.cols
                invariant
                    j <= self.cols,
                    row@ =~= Seq::new(j as nat, |k: int| Cell { c: ' ' }),
                decreases self.cols - j,
            {
                row.push(Cell { c: ' ' });
                j += 1;
            }
            self.grid.push(row);
            proof {
                assert(self@.grid =~~= pre.newline().grid);
                assert(self@ =~= pre.newline());
            }
        } else {
            self.cursor_row = self.cursor_row + 1;
            proof {
                assert(self@ =~= old(self)@.newline());
            }
        }
    }

    /// Move the cursor to column 0 of the current row.
    pub fn carriage_return(&mut self)
        requires
            old(self).wf(),
        ensures
            final(self)@ == old(self)@.carriage_return(),
            final(self).wf(),
    {
        self.cursor_col = 0;
        proof {
            assert(self@ =~= old(self)@.carriage_return());
        }
    }

    /// Move the cursor one column left, stopping at column 0.
    pub fn backspace(&mut self)
        requires
            old(self).wf(),
        ensures
            final(self)@ == old(self)@.backspace(),
            final(self).wf(),
    {
        if self.cursor_col > 0 {
            self.cursor_col = self.cursor_col - 1;
        }
        proof {
            assert(self@ =~= old(self)@.backspace());
        }
    }

    /// Advance the cursor to the next multiple-of-8 tab stop, clamped to
    /// the last column.
    pub fn tab(&mut self)
        requires
            old(self).wf(),
        ensures
            final(self)@ == old(self)@.tab(),
            final(self).wf(),
    {
        let stop = self.cursor_col / 8 + 1;
        if stop <= (self.cols - 1) / 8 {
            self.cursor_col = stop * 8;
        } else {
            self.cursor_col = self.cols - 1;
        }
        proof {
            let limit = (old(self).cols - 1) as int;
            assert(8 * (limit / 8) + limit % 8 == limit) by (nonlinear_arith);
            assert(limit % 8 < 8) by (nonlinear_arith);
            assert(self@ =~= old(self)@.tab());
        }
    }

    /// Move the cursor up by `n`, stopping at the top row.
    pub fn cursor_up(&mut self, n: usize)
        requires
            old(self).wf(),
        ensures
            final(self)@ == old(self)@.cursor_up(n as nat),
            final(self).wf(),
    {
        if self.cursor_row >= n {
            self.cursor_row = self.cursor_row - n;
        } else {
            self.cursor_row = 0;
        }
        proof {
            assert(self@ =~= old(self)@.cursor_up(n as nat));
        }
    }

    /// Move the cursor down by `n`, stopping at the bottom row.
    pub fn cursor_down(&mut self, n: usize)
        requires
            old(self).wf(),
        ensures
            final(self)@ == old(self)@.cursor_down(n as nat),
            final(self).wf(),
    {
        if n <= self.rows - 1 - self.cursor_row {
            self.cursor_row = self.cursor_row + n;
        } else {
            self.cursor_row = self.rows - 1;
        }
        proof {
            assert(self@ =~= old(self)@.cursor_down(n as nat));
        }
    }

    /// Move the cursor right by `n`, stopping at the last column.
    pub fn cursor_forward(&mut self, n: usize)
        requires
            old(self).wf(),
        ensures
            final(self)@ == old(self)@.cursor_forward(n as nat),
            final(self).wf(),
    {
        if self.cursor_col <= self.cols - 1 && n <= self.cols - 1 - self.cursor_col {
            self.cursor_col = self.cursor_col + n;
        } else {
            self.cursor_col = self.cols - 1;
        }
        proof {
            assert(self@ =~= old(self)@.cursor_forward(n as nat));
        }
    }

    /// Move the cursor left by `n`, stopping at column 0.
    pub fn cursor_back(&mut self, n: usize)
        requires
            old(self).wf(),
        ensures
            final(self)@ == old(self)@.cursor_back(n as nat),
            final(self).wf(),
    {
        if self.cursor_col >= n {
            self.cursor_col = self.cursor_col - n;
        } else {
            self.cursor_col = 0;
        }
        proof {
            assert(self@ =~= old(self)@.cursor_back(n as nat));
        }
    }

    /// Blank the cells at indices `[from, to)` of row `r`.
    fn blank_cells(&mut self, r: usize, from: usize, to: usize)
        requires
            old(self).wf(),
            r < old(self)@.rows,
            to <= old(self)@.cols,
        ensures
            final(self)@ == (ScreenView {
                grid: old(self)@.grid.update(
                    r as int,
                    row_blanked(old(self)@.grid[r as int], from as int, to as int),
                ),
                ..old(self)@
            }),
            final(self).wf(),
    {
        let ghost pre = self@;
        proof {
            assert(pre.grid[r as int].len() == pre.cols);
            assert(self.grid@[r as int]@.len() == pre.cols);
            assert(pre.grid.update(r as int, row_blanked(pre.grid[r as int], from as int, from as int))
                =~~= pre.grid);
        }
        let mut j: usize = from;
        while j < to
            invariant
                from <= j <= to || (j == from && to < from),
                to <= pre.cols,
                r < pre.rows,
                pre.wf(),
                self@ == (ScreenView {
                    grid: pre.grid.update(
                        r as int,
                        row_blanked(pre.grid[r as int], from as int, j as int),
                    ),
                    ..pre
                }),
            decreases to - j,
        {
            let ghost head = self@;
            let ghost headc = self.grid@;
            let ghost headrow = self.grid@[r as int]@;
            proof {
                assert(head.grid[r as int] == row_blanked(pre.grid[r as int], from as int, j as int));
                assert(head.grid[r as int].len() == pre.cols);
                assert(headc.len() == head.grid.len());
                assert(headrow.len() == head.grid[r as int].len());
                assert(head.grid[r as int] == Seq::new(headrow.len(), |k: int| headrow[k].c));
            }
            self.grid[r][j] = Cell { c: ' ' };
            proof {
                assert(self.grid@[r as int]@ == headrow.update(j as int, Cell { c: ' ' }));
                assert(forall|rr: int|
                    0 <= rr < headc.len() && rr != r ==> #[trigger] self.grid@[rr] == headc[rr]);
                assert(self@.grid.len() == head.grid.len());
                assert(self@.grid[r as int].len() == headrow.len());
                assert(forall|k: int| 0 <= k < headrow.len() ==>
                    #[trigger] self@.grid[r as int][k] == headrow.update(j as int, Cell { c: ' ' })[k].c);
                assert(forall|k: int| 0 <= k < headrow.len() ==>
                    headrow[k].c == #[trigger] head.grid[r as int][k]);
                assert(forall|k: int| 0 <= k < headrow.len() ==>
                    (#[trigger] headrow[k]).c
                        == row_blanked(pre.grid[r as int], from as int, j as int)[k]);
                assert(row_blanked(pre.grid[r as int], from as int, j as int + 1).len()
                    == headrow.len());
                assert(forall|k: int| 0 <= k < headrow.len() ==> self@.grid[r as int][k]
                    == #[trigger] row_blanked(pre.grid[r as int], from as int, j as int + 1)[k]);
                assert(self@.grid[r as int]
                    =~= row_blanked(pre.grid[r as int], from as int, j as int + 1));
                assert(forall|rr: int|
                    0 <= rr < head.grid.len() && rr != r ==> #[trigger] self@.grid[rr] == head.grid[rr]);
                assert(self@.grid =~~= pre.grid.update(
                    r as int,
                    row_blanked(pre.grid[r as int], from as int, j as int + 1),
                ));
                assert(self@ =~= (ScreenView {
                    grid: pre.grid.update(
                        r as int,
                        row_blanked(pre.grid[r as int], from as int, j as int + 1),
                    ),
                    ..pre
                }));
            }
            j += 1;
        }
        proof {
            if from > to {
                assert(row_blanked(pre.grid[r as int], from as int, to as int)
                    =~= row_blanked(pre.grid[r as int], from as int, from as int));
                assert(pre.grid.update(
                    r as int,
                    row_blanked(pre.grid[r as int], from as int, to as int),
                ) =~~= pre.grid.update(
                    r as int,
                    row_blanked(pre.grid[r as int], from as int, from as int),
                ));
                assert(self@ =~= (ScreenView {
                    grid: pre.grid.update(
                        r as int,
                        row_blanked(pre.grid[r as int], from as int, to as int),
                    ),
                    ..pre
                }));
            }
        }
    }

    /// Erase part of the cursor's row: mode 0 from the cursor to the end,
    /// mode 1 from the start through the cursor, mode 2 the whole row.
    /// Any other mode is a no-op.
    pub fn erase_in_line(&mut self, mode: u16)
        requires
            old(self).wf(),
        ensures
            final(self)@ == old(self)@.erase_in_line(mode),
            final(self).wf(),
    {
        if mode == 0 {
            self.blank_cells(self.cursor_row, self.cursor_col, self.cols);
        } else if mode == 1 {
            let to = if self.cursor_col >= self.cols - 1 {
                self.cols
            } else {
                self.cursor_col + 1
            };
            self.blank_cells(self.cursor_row, 0, to);
            proof {
                let pre = old(self)@;
                assert(row_blanked(pre.grid[pre.cursor_row as int], 0, to as int)
                    =~= row_blanked(pre.grid[pre.cursor_row as int], 0, pre.cursor_col as int + 1));
            }
        } else if mode == 2 {
            self.blank_cells(self.cursor_row, 0, self.cols);
        }
    }

    /// Erase part of the screen: mode 0 from the cursor to the end, mode 1
    /// from the start through the cursor, modes 2 and 3 the whole grid with
    /// the cursor reset to the origin.  Any other mode is a no-op.
    pub fn erase_in_display(&mut self, mode: u16)
        requires
            old(self).wf(),
        ensures
            final(self)@ == old(self)@.erase_in_display(mode),
            final(self).wf(),
    {
        let ghost pre = self@;
        if mode == 0 {
            self.erase_in_line(0);
            proof {
                assert(self@.grid =~~= Seq::new(
                    pre.grid.len(),
                    |rr: int|
                        if rr < pre.cursor_row {
                            pre.grid[rr]
                        } else if rr == pre.cursor_row {
                            row_blanked(pre.grid[rr], pre.cursor_col as int, pre.cols as int)
                        } else if rr < pre.cursor_row + 1 {
                            row_blanked(pre.grid[rr], 0, pre.cols as int)
                        } else {
                            pre.grid[rr]
                        },
                ));
            }
            let mut r: usize = self.cursor_row + 1;
            while r < self.rows
                invariant
                    pre.wf(),
                    pre.cursor_row + 1 <= r <= pre.rows,
                    self.cursor_row == pre.cursor_row,
                    self.rows == pre.rows,
                    self@ == (ScreenView {
                        grid: Seq::new(
                            pre.grid.len(),
                            |rr: int|
                                if rr < pre.cursor_row {
                                    pre.grid[rr]
                                } else if rr == pre.cursor_row {
                                    row_blanked(pre.grid[rr], pre.cursor_col as int, pre.cols as int)
                                } else if rr < r {
                                    row_blanked(pre.grid[rr], 0, pre.cols as int)
                                } else {
                                    pre.grid[rr]
                                },
                        ),
                        ..pre
                    }),
                decreases self.rows - r,
            {
                let ghost mid = self@;
                self.blank_cells(r, 0, self.cols);
                proof {
                    assert(self@.grid =~~= Seq::new(
                        pre.grid.len(),
                        |rr: int|
                            if rr < pre.cursor_row {
                                pre.grid[rr]
                            } else if rr == pre.cursor_row {
                                row_blanked(pre.grid[rr], pre.cursor_col as int, pre.cols as int)
                            } else if rr < r + 1 {
                                row_blanked(pre.grid[rr], 0, pre.cols as int)
                            } else {
                                pre.grid[rr]
                            },
                    ));
                }
                r += 1;
            }
            proof {
                assert(self@.grid =~~= pre.erase_in_display(0).grid);
                assert(self@ =~= pre.erase_in_display(0));
            }
        } else if mode == 1 {
            proof {
                assert(self@.grid =~~= Seq::new(
                    pre.grid.len(),
                    |rr: int|
                        if rr < 0 {
                            row_blanked(pre.grid[rr], 0, pre.cols as int)
                        } else {
                            pre.grid[rr]
                        },
                ));
            }
            let mut r: usize = 0;
            while r < self.cursor_row
                invariant
                    pre.wf(),
                    r <= pre.cursor_row,
                    self.cursor_row == pre.cursor_row,
                    self.rows == pre.rows,
                    self@ == (ScreenView {
                        grid: Seq::new(
                            pre.grid.len(),
                            |rr: int|
                                if rr < r {
                                    row_blanked(pre.grid[rr], 0, pre.cols as int)
                                } else {
                                    pre.grid[rr]
                                },
                        ),
                        ..pre
                    }),
                decreases self.cursor_row - r,
            {
                self.blank_cells(r, 0, self.cols);
                proof {
                    assert(self@.grid =~~= Seq::new(
                        pre.grid.len(),
                        |rr: int|
                            if rr < r + 1 {
                                row_blanked(pre.grid[rr], 0, pre.cols as int)
                            } else {
                                pre.grid[rr]
                            },
                    ));
                }
                r += 1;
            }
            self.erase_in_line(1);
            proof {
                assert(self@.grid =~~= pre.erase_in_display(1).grid);
                assert(self@ =~= pre.erase_in_display(1));
            }
        } else if mode == 2 || mode == 3 {
            proof {
                assert(self@.grid =~~= Seq::new(
                    pre.grid.len(),
                    |rr: int|
                        if rr < 0 {
                            row_blanked(pre.grid[rr], 0, pre.cols as int)
                        } else {
                            pre.grid[rr]
                        },
                ));
            }
            let mut r: usize = 0;
            while r < self.rows
                invariant
                    pre.wf(),
                    r <= pre.rows,
                    self.rows == pre.rows,
                    self@ == (ScreenView {
                        grid: Seq::new(
                            pre.grid.len(),
                            |rr: int|
                                if rr < r {
                                    row_blanked(pre.grid[rr], 0, pre.cols as int)
                                } else {
                                    pre.grid[rr]
                                },
                        ),
                        ..pre
                    }),
                decreases self.rows - r,
            {
                self.blank_cells(r, 0, self.cols);
                proof {
                    assert(self@.grid =~~= Seq::new(
                        pre.grid.len(),
                        |rr: int|
                            if rr < r + 1 {
                                row_blanked(pre.grid[rr], 0, pre.cols as int)
                            } else {
                                pre.grid[rr]
                            },
                    ));
                }
                r += 1;
            }
            self.cursor_row = 0;
            self.cursor_col = 0;
            proof {
                assert(self@.grid =~~= pre.erase_in_display(mode).grid);
                assert(self@ =~= pre.erase_in_display(mode));
            }
        }
    }

    /// The length of row `r` once its trailing blank cells are dropped.
    fn trimmed_len(&self, r: usize) -> (n: usize)
        requires
            self.wf(),
            r < self@.rows,
        ensures
            n == trim_row(self@.grid[r as int]).len(),
            n <= self@.cols,
    {
        let ghost row = self@.grid[r as int];
        let mut n: usize = self.cols;
        proof {
            assert(row.subrange(0, n as int) =~= row);
        }
        while n > 0 && self.grid[r][n - 1].c == ' '
            invariant
                n <= self@.cols,
                self.wf(),
                r < self@.rows,
                row == self@.grid[r as int],
                trim_row(row.subrange(0, n as int)) == trim_row(row),
            decreases n,
        {
            proof {
                assert(self.grid@[r as int]@[n - 1].c == row[n - 1]);
                assert(row.subrange(0, n as int).last() == row[n - 1]);
                assert(row.subrange(0, n as int).drop_last() =~= row.subrange(0, n - 1));
            }
            n -= 1;
        }
        proof {
            if n > 0 {
                assert(self.grid@[r as int]@[n - 1].c == row[n - 1]);
                assert(row.subrange(0, n as int).last() == row[n - 1]);
                assert(trim_row(row.subrange(0, n as int)) == row.subrange(0, n as int));
            }
            assert(trim_row(row).len() == n);
        }
        n
    }

    /// The rendered text of the whole screen: one line per row, trailing
    /// blanks and trailing blank lines trimmed away.
    pub fn to_string(&self) -> (out: String)
        requires
            self.wf(),
        ensures
            out@ == self@.render(),
    {
        let ghost grid = self@.grid;
        // Drop the trailing all-blank rows.
        let mut vis: usize = self.rows;
        proof {
            assert(grid.subrange(0, vis as int) =~= grid);
        }
        while vis > 0 && self.trimmed_len(vis - 1) == 0
            invariant
                vis <= self@.rows,
                self.wf(),
                grid == self@.grid,
                visible_count(grid.subrange(0, vis as int)) == visible_count(grid),
            decreases vis,
        {
            proof {
                assert(grid.subrange(0, vis as int).last() == grid[vis - 1]);
                assert(grid.subrange(0, vis as int).drop_last() =~= grid.subrange(0, vis - 1));
            }
            vis -= 1;
        }
        proof {
            if vis > 0 {
                assert(grid.subrange(0, vis as int).last() == grid[vis - 1]);
            }
            assert(visible_count(grid) == vis);
        }
        // Emit each visible row, trimmed, with a line break between rows.
        let mut chars: Vec<char> = Vec::new();
        let mut r: usize = 0;
        proof {
            assert(chars@ =~= join_rows(grid.subrange(0, 0)));
        }
        while r < vis
            invariant
                r <= vis,
                vis <= self@.rows,
                self.wf(),
                grid == self@.grid,
                visible_count(grid) == vis,
                chars@ == join_rows(grid.subrange(0, r as int)),
            decreases vis - r,
        {
            if r > 0 {
                chars.push('\n');
            }
            let ghost base = chars@;
            let tl = self.trimmed_len(r);
            proof {
                lemma_trim_row_prefix(grid[r as int]);
                assert(trim_row(grid[r as int]).subrange(0, 0) =~= Seq::<char>::empty());
            }
            let mut k: usize = 0;
            while k < tl
                invariant
                    k <= tl,
                    r < vis,
                    vis <= self@.rows,
                    self.wf(),
                    grid == self@.grid,
                    tl == trim_row(grid[r as int]).len(),
                    tl <= self@.cols,
                    trim_row(grid[r as int]) == grid[r as int].subrange(0, tl as int),
                    chars@ == base + trim_row(grid[r as int]).subrange(0, k as int),
                decreases tl - k,
            {
                proof {
                    assert(self.grid@[r as int]@[k as int].c == grid[r as int][k as int]);
                    assert(trim_row(grid[r as int])[k as int] == grid[r as int][k as int]);
                }
                chars.push(self.grid[r][k].c);
                proof {
                    assert(chars@ =~= base + trim_row(grid[r as int]).subrange(0, k + 1));
                }
                k += 1;
            }
            proof {
                assert(trim_row(grid[r as int]).subrange(0, tl as int)
                    =~= trim_row(grid[r as int]));
                assert(grid.subrange(0, r + 1).drop_last() =~= grid.subrange(0, r as int));
                assert(grid.subrange(0, r + 1).last() == grid[r as int]);
                if r == 0 {
                    assert(chars@ =~= join_rows(grid.subrange(0, r + 1)));
                } else {
                    assert(base =~= join_rows(grid.subrange(0, r as int)) + seq!['\n']);
                    assert(chars@ =~= join_rows(grid.subrange(0, r + 1)));
                }
            }
            r += 1;
        }
        proof {
            assert(chars@ == self@.render());
        }
        chars_to_string(&chars)
    }

    /// Place the cursor at the given 1-based coordinates, clamping each
    /// independently into the grid; 0 is treated as 1.
    pub fn set_cursor_pos(&mut self, row: usize, col: usize)
        requires
            old(self).wf(),
        ensures
            final(self)@ == old(self)@.set_cursor_pos(row as nat, col as nat),
            final(self).wf(),
    {
        let r = if row >= 1 { row - 1 } else { 0 };
        self.cursor_row = if r <= self.rows - 1 { r } else { self.rows - 1 };
        let c = if col >= 1 { col - 1 } else { 0 };
        self.cursor_col = if c <= self.cols - 1 { c } else { self.cols - 1 };
        proof {
            assert(self@ =~= old(self)@.set_cursor_pos(row as nat, col as nat));
        }
    }
}

} // verus!
