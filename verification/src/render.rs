use vstd::prelude::*;

use crate::board::Board;
use crate::coordinates::Coordinates;
use crate::player::Player;
use crate::text::{int_len, int_text, push_int};

verus! {

/// The text tag of a player mark.
pub open spec fn player_text(p: Player) -> Seq<char> {
    match p {
        Player::X => seq!['X'],
        Player::O => seq!['O'],
    }
}

/// The character `c` repeated `n` times.
pub open spec fn repeat_char(c: char, n: int) -> Seq<char> {
    Seq::new(if n >= 0 {
        n as nat
    } else {
        0
    }, |i: int| c)
}

/// The content `s` centered in a field of `w` characters, the extra space on
/// the right; content wider than the field is kept as it is.
pub open spec fn center_pad(s: Seq<char>, w: int) -> Seq<char> {
    if s.len() > w {
        s
    } else {
        let left = (w - s.len()) / 2;
        repeat_char(' ', left) + s + repeat_char(' ', w - s.len() - left)
    }
}

/// Appends `n` spaces.
fn push_spaces(out: &mut String, n: usize)
    ensures
        final(out)@ == old(out)@ + repeat_char(' ', n as int),
{
    proof {
        reveal_strlit(" ");
        assert(old(out)@ + repeat_char(' ', 0) =~= old(out)@);
    }
    let mut i: usize = 0;
    while i < n
        invariant
            i <= n,
            out@ == old(out)@ + repeat_char(' ', i as int),
        decreases n - i,
    {
        out.append(" ");
        proof {
            reveal_strlit(" ");
            assert(old(out)@ + repeat_char(' ', i as int) + " "@ =~= old(out)@ + repeat_char(
                ' ',
                i + 1,
            ));
        }
        i += 1;
    }
}

/// Appends `n` dashes.
fn push_dashes(out: &mut String, n: usize)
    ensures
        final(out)@ == old(out)@ + repeat_char('-', n as int),
{
    proof {
        reveal_strlit("-");
        assert(old(out)@ + repeat_char('-', 0) =~= old(out)@);
    }
    let mut i: usize = 0;
    while i < n
        invariant
            i <= n,
            out@ == old(out)@ + repeat_char('-', i as int),
        decreases n - i,
    {
        out.append("-");
        proof {
            reveal_strlit("-");
            assert(old(out)@ + repeat_char('-', i as int) + "-"@ =~= old(out)@ + repeat_char(
                '-',
                i + 1,
            ));
        }
        i += 1;
    }
}

impl Board {
    /// The number of columns of the grid.
    pub open spec fn width(self) -> int {
        self.max_x - self.min_x + 1
    }

    /// The number of rows of the grid.
    pub open spec fn height(self) -> int {
        self.max_y - self.min_y + 1
    }

    /// The field width of one rendered cell: twice the widest text among the
    /// four bounds, plus three.
    pub open spec fn cell_width(self) -> int {
        2 * vstd::math::max(
            vstd::math::max(
                int_text(self.min_x as int).len() as int,
                int_text(self.max_x as int).len() as int,
            ),
            vstd::math::max(
                int_text(self.min_y as int).len() as int,
                int_text(self.max_y as int).len() as int,
            ),
        ) + 3
    }

    /// The text of one cell: the player's tag when the cell is occupied,
    /// else the cell's own coordinate text, centered in the cell field.
    pub open spec fn cell_text(self, x: int, y: int) -> Seq<char> {
        let content = if self@.contains_key((x, y)) {
            player_text(self@[(x, y)])
        } else {
            int_text(x) + seq![','] + int_text(y)
        };
        center_pad(content, self.cell_width())
    }

    /// The first `n` cells of the row at `y`, joined by `|`.
    pub open spec fn row_prefix(self, y: int, n: int) -> Seq<char>
        decreases n,
    {
        if n <= 0 {
            Seq::empty()
        } else if n == 1 {
            self.cell_text(self.min_x as int, y)
        } else {
            self.row_prefix(y, n - 1) + seq!['|'] + self.cell_text(self.min_x + n - 1, y)
        }
    }

    /// One rendered grid row.
    pub open spec fn row_text(self, y: int) -> Seq<char> {
        self.row_prefix(y, self.width())
    }

    /// The first `n` cells of the separator line: dash fields joined by `|`.
    pub open spec fn sep_prefix(self, n: int) -> Seq<char>
        decreases n,
    {
        if n <= 0 {
            Seq::empty()
        } else if n == 1 {
            repeat_char('-', self.cell_width())
        } else {
            self.sep_prefix(n - 1) + seq!['|'] + repeat_char('-', self.cell_width())
        }
    }

    /// The first `m` grid rows, stacked with a separator line between two
    /// rows.
    pub open spec fn rows_prefix(self, m: int) -> Seq<char>
        decreases m,
    {
        if m <= 0 {
            Seq::empty()
        } else if m == 1 {
            self.row_text(self.min_y as int)
        } else {
            self.rows_prefix(m - 1) + seq!['\n'] + self.sep_prefix(self.width()) + seq!['\n']
                + self.row_text(self.min_y + m - 1)
        }
    }

    /// The full rendering of the board: the rows from `min_y` to `max_y`,
    /// each cell showing its occupant's tag or its own coordinates, with
    /// dash separator lines between rows.
    pub open spec fn render_spec(self) -> Seq<char> {
        self.rows_prefix(self.height())
    }

    /// The field width of one rendered cell.
    fn cell_size(&self) -> (r: usize)
        ensures
            r == self.cell_width(),
    {
        let a = int_len(self.min_x);
        let b = int_len(self.max_x);
        let c = int_len(self.min_y);
        let d = int_len(self.max_y);
        let mut m = a;
        if b > m {
            m = b;
        }
        if c > m {
            m = c;
        }
        if d > m {
            m = d;
        }
        2 * m + 3
    }

    /// Appends the centered text of one cell.
    fn push_cell(&self, out: &mut String, x: i8, y: i8, w: usize)
        requires
            self.wf(),
            w == self.cell_width(),
        ensures
            final(out)@ == old(out)@ + self.cell_text(x as int, y as int),
    {
        let mut content = String::new();
        match self.get(&Coordinates { x, y }) {
            Some(p) => {
                proof {
                    reveal_strlit("X");
                    reveal_strlit("O");
                }
                match p {
                    Player::X => content.append("X"),
                    Player::O => content.append("O"),
                }
                proof {
                    assert(content@ =~= player_text(self@[(x as int, y as int)]));
                }
            },
            None => {
                push_int(&mut content, x);
                proof {
                    reveal_strlit(",");
                }
                content.append(",");
                push_int(&mut content, y);
                proof {
                    assert(content@ =~= int_text(x as int) + seq![','] + int_text(y as int));
                }
            },
        }
        let ghost body = content@;
        let l = content.as_str().unicode_len();
        if l <= w {
            let left = (w - l) / 2;
            let right = w - l - left;
            push_spaces(out, left);
            out.append(content.as_str());
            push_spaces(out, right);
            proof {
                assert(final(out)@ =~= old(out)@ + center_pad(body, w as int));
            }
        } else {
            out.append(content.as_str());
        }
    }

    /// Appends one grid row.
    fn push_row(&self, out: &mut String, y: i8, w: usize)
        requires
            self.wf(),
            w == self.cell_width(),
        ensures
            final(out)@ == old(out)@ + self.row_text(y as int),
    {
        let cols_i32 = (self.max_x as i32) - (self.min_x as i32) + 1;
        let cols = cols_i32 as usize;
        let mut j: usize = 0;
        proof {
            reveal_strlit("|");
        }
        while j < cols
            invariant
                self.wf(),
                w == self.cell_width(),
                j <= cols,
                cols == self.width(),
                out@ == old(out)@ + self.row_prefix(y as int, j as int),
            decreases cols - j,
        {
            if j > 0 {
                out.append("|");
            }
            let x = ((self.min_x as i32) + (j as i32)) as i8;
            self.push_cell(out, x, y, w);
            proof {
                reveal_strlit("|");
                if j == 0 {
                    assert(out@ =~= old(out)@ + self.row_prefix(y as int, 1));
                } else {
                    assert(out@ =~= old(out)@ + self.row_prefix(y as int, j + 1));
                }
            }
            j += 1;
        }
    }

    /// Appends the separator line between two grid rows.
    fn push_sep_row(&self, out: &mut String, w: usize)
        requires
            self.bounds_wf(),
            w == self.cell_width(),
        ensures
            final(out)@ == old(out)@ + self.sep_prefix(self.width()),
    {
        let cols_i32 = (self.max_x as i32) - (self.min_x as i32) + 1;
        let cols = cols_i32 as usize;
        let mut j: usize = 0;
        proof {
            reveal_strlit("|");
        }
        while j < cols
            invariant
                w == self.cell_width(),
                j <= cols,
                cols == self.width(),
                out@ == old(out)@ + self.sep_prefix(j as int),
            decreases cols - j,
        {
            if j > 0 {
                out.append("|");
            }
            push_dashes(out, w);
            proof {
                reveal_strlit("|");
                if j == 0 {
                    assert(out@ =~= old(out)@ + self.sep_prefix(1));
                } else {
                    assert(out@ =~= old(out)@ + self.sep_prefix(j + 1));
                }
            }
            j += 1;
        }
    }

    /// The rendering of the board as one text block: rows from `min_y` to
    /// `max_y`, each cell centered in a fixed-width field showing either its
    /// occupant's tag or its own coordinate text, rows separated by a line
    /// of dashes, everything joined with newlines.
    pub fn render(&self) -> (r: String)
        requires
            self.wf(),
        ensures
            r@ == self.render_spec(),
    {
        let w = self.cell_size();
        let rows_i32 = (self.max_y as i32) - (self.min_y as i32) + 1;
        let rows = rows_i32 as usize;
        let mut out = String::new();
        let mut m: usize = 0;
        proof {
            reveal_strlit("\n");
        }
        while m < rows
            invariant
                self.wf(),
                w == self.cell_width(),
                m <= rows,
                rows == self.height(),
                out@ == self.rows_prefix(m as int),
            decreases rows - m,
        {
            let y = ((self.min_y as i32) + (m as i32)) as i8;
            if m > 0 {
                out.append("\n");
                self.push_sep_row(&mut out, w);
                out.append("\n");
            }
            self.push_row(&mut out, y, w);
            proof {
                reveal_strlit("\n");
                if m == 0 {
                    assert(out@ =~= self.rows_prefix(1));
                } else {
                    assert(out@ =~= self.rows_prefix(m + 1));
                }
            }
            m += 1;
        }
        out
    }
}

} // verus!
