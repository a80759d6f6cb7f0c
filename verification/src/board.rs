use vstd::prelude::*;

use crate::coordinates::Coordinates;
use crate::error::Error;
use crate::game::Game;
use crate::player::Player;

verus! {

/// An immutable grid snapshot: a mapping from occupied cells to the player
/// occupying them, together with the inclusive bounds copied from the game
/// configuration at construction. A board is never mutated in place; every
/// successful move produces a new board value, so older snapshots stay valid.
pub struct Board {
    /// The occupied cells, one entry per cell. The abstract value of a board
    /// is the map `self@` this list describes; `wf()` keeps the entries
    /// distinct and in bounds. Use `get` and `len` to read it.
    pub cells: Vec<(Coordinates, Player)>,
    pub min_x: i8,
    pub max_x: i8,
    pub min_y: i8,
    pub max_y: i8,
}

/// The mapping described by a list of (cell, mark) entries, later entries
/// winning on a repeated cell. A well-formed board never repeats a cell, so
/// on a board the order of entries carries no information.
spec fn map_of(s: Seq<(Coordinates, Player)>) -> Map<(int, int), Player>
    decreases s.len(),
{
    if s.len() == 0 {
        Map::empty()
    } else {
        map_of(s.drop_last()).insert(s.last().0@, s.last().1)
    }
}

/// No two entries name the same cell.
spec fn distinct_keys(s: Seq<(Coordinates, Player)>) -> bool {
    forall|i: int, j: int|
        0 <= i < j < s.len() ==> (#[trigger] s[i]).0@ != (#[trigger] s[j]).0@
}

proof fn lemma_map_of_contains(s: Seq<(Coordinates, Player)>, k: (int, int))
    ensures
        map_of(s).contains_key(k) <==> exists|i: int| 0 <= i < s.len() && (#[trigger] s[i]).0@ == k,
    decreases s.len(),
{
    if s.len() > 0 {
        lemma_map_of_contains(s.drop_last(), k);
        if s.last().0@ == k {
            assert((s[s.len() - 1]).0@ == k);
        } else if map_of(s).contains_key(k) {
            let i = choose|i: int| 0 <= i < s.drop_last().len() && (#[trigger] s.drop_last()[i]).0@ == k;
            assert((s[i]).0@ == k);
        } else {
            assert forall|i: int| 0 <= i < s.len() implies (#[trigger] s[i]).0@ != k by {
                if i < s.len() - 1 {
                    assert(s.drop_last()[i] == s[i]);
                }
            }
        }
    }
}

proof fn lemma_map_of_index(s: Seq<(Coordinates, Player)>, i: int)
    requires
        distinct_keys(s),
        0 <= i < s.len(),
    ensures
        map_of(s).contains_key((s[i]).0@),
        map_of(s)[(s[i]).0@] == (s[i]).1,
    decreases s.len(),
{
    if i == s.len() - 1 {
    } else {
        assert(distinct_keys(s.drop_last())) by {
            assert forall|a: int, b: int|
                0 <= a < b < s.drop_last().len() implies (#[trigger] s.drop_last()[a]).0@
                != (#[trigger] s.drop_last()[b]).0@ by {
                assert(s.drop_last()[a] == s[a]);
                assert(s.drop_last()[b] == s[b]);
            }
        }
        assert(s.drop_last()[i] == s[i]);
        lemma_map_of_index(s.drop_last(), i);
        assert((s[i]).0@ != s.last().0@);
    }
}

proof fn lemma_map_of_finite_len(s: Seq<(Coordinates, Player)>)
    requires
        distinct_keys(s),
    ensures
        map_of(s).dom().finite(),
        map_of(s).dom().len() == s.len(),
    decreases s.len(),
{
    if s.len() > 0 {
        assert(distinct_keys(s.drop_last())) by {
            assert forall|a: int, b: int|
                0 <= a < b < s.drop_last().len() implies (#[trigger] s.drop_last()[a]).0@
                != (#[trigger] s.drop_last()[b]).0@ by {
                assert(s.drop_last()[a] == s[a]);
                assert(s.drop_last()[b] == s[b]);
            }
        }
        lemma_map_of_finite_len(s.drop_last());
        lemma_map_of_contains(s.drop_last(), s.last().0@);
        assert forall|i: int|
            0 <= i < s.drop_last().len() implies (#[trigger] s.drop_last()[i]).0@
            != s.last().0@ by {
            assert(s.drop_last()[i] == s[i]);
            assert((s[s.len() - 1]).0@ == s.last().0@);
        }
        assert(!map_of(s.drop_last()).contains_key(s.last().0@));
    }
}

impl View for Board {
    type V = Map<(int, int), Player>;

    /// The mathematical value of a board: the finite map from the occupied
    /// cells, as integer pairs, to the players occupying them.
    closed spec fn view(&self) -> Map<(int, int), Player> {
        map_of(self.cells@)
    }
}

impl Board {
    /// Whether a cell address lies within the inclusive bounds.
    pub open spec fn on_board_spec(self, p: (int, int)) -> bool {
        self.min_x <= p.0 <= self.max_x && self.min_y <= p.1 <= self.max_y
    }

    /// The two boards share the same bounds.
    pub open spec fn same_bounds(self, other: Board) -> bool {
        &&& self.min_x == other.min_x
        &&& self.max_x == other.max_x
        &&& self.min_y == other.min_y
        &&& self.max_y == other.max_y
    }

    /// The bounds part of the invariant: both ranges are non-empty.
    pub open spec fn bounds_wf(self) -> bool {
        self.min_x <= self.max_x && self.min_y <= self.max_y
    }

    /// The occupancy part of the invariant: every entry names a distinct
    /// on-board cell.
    pub closed spec fn cells_wf(self) -> bool {
        &&& distinct_keys(self.cells@)
        &&& forall|i: int|
            0 <= i < self.cells@.len() ==> self.on_board_spec((#[trigger] self.cells@[i]).0@)
    }

    /// The board invariant, established by `new` and preserved by `insert`:
    /// the bounds are ordered and every occupied cell is a distinct cell
    /// within them.
    pub open spec fn wf(self) -> bool {
        self.bounds_wf() && self.cells_wf()
    }

    /// Every occupied cell of a well-formed board is on the board.
    pub proof fn lemma_wf_occupied_on_board(self, k: (int, int))
        requires
            self.wf(),
            self@.contains_key(k),
        ensures
            self.on_board_spec(k),
    {
        lemma_map_of_contains(self.cells@, k);
    }

    /// On a fresh board every cell is free. With `insert`'s contract this
    /// says that the first move at any on-board cell of a new board
    /// succeeds, and the board it returns maps that cell to the mover.
    pub proof fn lemma_fresh_board_accepts(self, c: (int, int), p: Player)
        requires
            self@ == Map::<(int, int), Player>::empty(),
        ensures
            !self@.contains_key(c),
            self@.insert(c, p)[c] == p,
    {
    }

    /// A board produced by a successful insert at `c` holds `c`. With
    /// `insert`'s contract this says that inserting twice at the same cell,
    /// even by different players, fails the second time with
    /// `AlreadyOccupied`.
    pub proof fn lemma_insert_occupies(self, after: Board, c: (int, int), p: Player)
        requires
            after@ == self@.insert(c, p),
        ensures
            after@.contains_key(c),
    {
    }

    /// The number of cells of the bounded grid.
    pub open spec fn cell_count(self) -> int {
        (self.max_x - self.min_x + 1) * (self.max_y - self.min_y + 1)
    }

    /// A board is a draw when no empty cell is left. The comparison is
    /// deliberately non-strict: the occupied count can never exceed the cell
    /// count under the current insertion checks, but the behavior must stay
    /// the same if a relaxed insertion policy ever lets it.
    pub open spec fn is_draw_spec(self) -> bool {
        self@.dom().len() >= self.cell_count()
    }

    /// Whether a cell address lies within the board's bounds.
    pub fn on_board(&self, coordinates: &Coordinates) -> (r: bool)
        ensures
            r == self.on_board_spec(coordinates@),
    {
        coordinates.x >= self.min_x && coordinates.x <= self.max_x && coordinates.y >= self.min_y
            && coordinates.y <= self.max_y
    }

    /// An empty board with the bounds of the given game configuration.
    pub fn new(game: &Game) -> (r: Board)
        requires
            game.wf(),
        ensures
            r.wf(),
            r@ == Map::<(int, int), Player>::empty(),
            r.min_x == game.min_x,
            r.max_x == game.max_x,
            r.min_y == game.min_y,
            r.max_y == game.max_y,
    {
        Board {
            cells: Vec::new(),
            min_x: game.min_x,
            max_x: game.max_x,
            min_y: game.min_y,
            max_y: game.max_y,
        }
    }

    /// The occupant of a cell, if any.
    pub fn get(&self, coordinates: &Coordinates) -> (r: Option<Player>)
        requires
            self.wf(),
        ensures
            r == (if self@.contains_key(coordinates@) {
                Some(self@[coordinates@])
            } else {
                None::<Player>
            }),
    {
        let mut i: usize = 0;
        while i < self.cells.len()
            invariant
                self.wf(),
                i <= self.cells@.len(),
                forall|j: int| 0 <= j < i ==> (#[trigger] self.cells@[j]).0@ != coordinates@,
            decreases self.cells@.len() - i,
        {
            if self.cells[i].0 == *coordinates {
                proof {
                    lemma_map_of_index(self.cells@, i as int);
                }
                return Some(self.cells[i].1);
            }
            i += 1;
        }
        proof {
            lemma_map_of_contains(self.cells@, coordinates@);
        }
        None
    }

    /// The number of occupied cells.
    pub fn len(&self) -> (r: usize)
        requires
            self.wf(),
        ensures
            r == self@.dom().len(),
    {
        proof {
            lemma_map_of_finite_len(self.cells@);
        }
        self.cells.len()
    }

    /// A new board identical to this one except that the given cell holds the
    /// given player's mark. The receiver is untouched; callers may keep using
    /// it. Fails with `OutOfBounds` when the cell is outside the bounds, and
    /// with `AlreadyOccupied` when the cell already holds a mark.
    pub fn insert(&self, coordinates: &Coordinates, player: &Player) -> (r: Result<Board, Error>)
        requires
            self.wf(),
        ensures
            !self.on_board_spec(coordinates@) ==> r == Err::<Board, Error>(Error::OutOfBounds),
            self.on_board_spec(coordinates@) && self@.contains_key(coordinates@) ==> r == Err::<
                Board,
                Error,
            >(Error::AlreadyOccupied),
            self.on_board_spec(coordinates@) && !self@.contains_key(coordinates@) ==> (r matches Ok(b)
                && b.wf() && b.same_bounds(*self) && b@ == self@.insert(coordinates@, *player)),
    {
        if !self.on_board(coordinates) {
            Err(Error::OutOfBounds)
        } else if self.get(coordinates).is_some() {
            Err(Error::AlreadyOccupied)
        } else {
            let mut cells = copy_cells(&self.cells);
            cells.push((*coordinates, *player));
            let b = Board {
                cells,
                min_x: self.min_x,
                max_x: self.max_x,
                min_y: self.min_y,
                max_y: self.max_y,
            };
            proof {
                assert(b.cells@.drop_last() =~= self.cells@);
                lemma_map_of_contains(self.cells@, coordinates@);
                assert(b.cells_wf()) by {
                    assert forall|i: int, j: int|
                        0 <= i < j < b.cells@.len() implies (#[trigger] b.cells@[i]).0@
                        != (#[trigger] b.cells@[j]).0@ by {
                        if j < b.cells@.len() - 1 {
                            assert(b.cells@[i] == self.cells@[i]);
                            assert(b.cells@[j] == self.cells@[j]);
                        } else {
                            assert(b.cells@[i] == self.cells@[i]);
                        }
                    }
                    assert forall|i: int|
                        0 <= i < b.cells@.len() implies b.on_board_spec(
                        (#[trigger] b.cells@[i]).0@,
                    ) by {
                        if i < b.cells@.len() - 1 {
                            assert(b.cells@[i] == self.cells@[i]);
                        }
                    }
                }
            }
            Ok(b)
        }
    }

    /// Whether the board is a draw: no empty cell is left.
    pub fn is_draw(&self) -> (r: bool)
        requires
            self.wf(),
        ensures
            r == self.is_draw_spec(),
    {
        proof {
            lemma_map_of_finite_len(self.cells@);
        }
        let width = (self.max_x as i32) - (self.min_x as i32) + 1;
        let height = (self.max_y as i32) - (self.min_y as i32) + 1;
        proof {
            assert((width as usize) * (height as usize) <= 65536) by (nonlinear_arith)
                requires
                    1 <= width <= 256,
                    1 <= height <= 256,
            ;
        }
        let cell_amount = (width as usize) * (height as usize);
        self.cells.len() >= cell_amount
    }
}

/// The raw candidate line through `c` with direction `(dx, dy)`: the cells at
/// the symmetric offsets `-size ..= size` from `c`, before any bounds check.
pub open spec fn raw_line(c: (int, int), dx: int, dy: int, size: int) -> Seq<(int, int)> {
    Seq::new((2 * size + 1) as nat, |i: int| (c.0 + dx * (i - size), c.1 + dy * (i - size)))
}

/// The predicate keeping the candidate lines that still pass through `c`
/// after the bounds filter.
pub open spec fn keeps(c: (int, int)) -> spec_fn(Seq<(int, int)>) -> bool {
    |l: Seq<(int, int)>| l.contains(c)
}

/// The subsequence of distinct rows, each kept at its first occurrence.
pub open spec fn dedup_rows(s: Seq<Seq<(int, int)>>) -> Seq<Seq<(int, int)>>
    decreases s.len(),
{
    if s.len() == 0 {
        Seq::empty()
    } else if s.drop_last().contains(s.last()) {
        dedup_rows(s.drop_last())
    } else {
        dedup_rows(s.drop_last()).push(s.last())
    }
}

proof fn lemma_dedup_rows_contains(s: Seq<Seq<(int, int)>>, x: Seq<(int, int)>)
    ensures
        dedup_rows(s).contains(x) <==> s.contains(x),
    decreases s.len(),
{
    if s.len() > 0 {
        let d0 = dedup_rows(s.drop_last());
        lemma_dedup_rows_contains(s.drop_last(), x);
        assert(s.contains(x) <==> (s.drop_last().contains(x) || s.last() == x)) by {
            if s.contains(x) {
                let i = choose|i: int| 0 <= i < s.len() && s[i] == x;
                if i < s.len() - 1 {
                    assert(s.drop_last()[i] == x);
                } else {
                    assert(s.last() == x);
                }
            }
            if s.drop_last().contains(x) {
                let i = choose|i: int| 0 <= i < s.drop_last().len() && s.drop_last()[i] == x;
                assert(s[i] == x);
            }
            if s.last() == x {
                assert(s[s.len() - 1] == x);
            }
        }
        if s.drop_last().contains(s.last()) {
            assert(dedup_rows(s) == d0);
        } else {
            assert(dedup_rows(s) == d0.push(s.last()));
            assert(d0.push(s.last()).contains(x) <==> (d0.contains(x) || s.last() == x)) by {
                if d0.contains(x) {
                    let i = choose|i: int| 0 <= i < d0.len() && d0[i] == x;
                    assert(d0.push(s.last())[i] == x);
                }
                assert(d0.push(s.last())[d0.len() as int] == s.last());
                if d0.push(s.last()).contains(x) {
                    let i = choose|i: int|
                        0 <= i < d0.push(s.last()).len() && d0.push(s.last())[i] == x;
                    if i < d0.len() {
                        assert(d0[i] == x);
                    }
                }
            }
        }
    }
}

/// Equal integer views make equal coordinate lists.
proof fn lemma_line_view_eq(a: Seq<Coordinates>, b: Seq<Coordinates>)
    ensures
        (Seq::new(a.len(), |i: int| a[i].deep_view()) == Seq::new(b.len(), |i: int| b[i].deep_view()))
            <==> a == b,
{
    let av = Seq::new(a.len(), |i: int| a[i].deep_view());
    let bv = Seq::new(b.len(), |i: int| b[i].deep_view());
    if av == bv {
        assert(av.len() == bv.len());
        assert forall|i: int| 0 <= i < a.len() implies a[i] == b[i] by {
            assert(av[i] == bv[i]);
        }
        assert(a =~= b);
    }
    if a == b {
        assert(av =~= bv);
    }
}

/// Whether the two coordinate lists hold the same cells in the same order.
fn vec_coords_equal(a: &Vec<Coordinates>, b: &Vec<Coordinates>) -> (r: bool)
    ensures
        r == (a@ == b@),
{
    if a.len() != b.len() {
        proof {
            assert(a@ != b@);
        }
        return false;
    }
    let mut i: usize = 0;
    while i < a.len()
        invariant
            a@.len() == b@.len(),
            i <= a@.len(),
            forall|j: int| 0 <= j < i ==> a@[j] == b@[j],
        decreases a@.len() - i,
    {
        if !(a[i] == b[i]) {
            return false;
        }
        i += 1;
    }
    proof {
        assert(a@ =~= b@);
    }
    true
}

/// Whether the line passes through the cell `c`.
fn line_contains(line: &Vec<Coordinates>, c: &Coordinates) -> (r: bool)
    ensures
        r == line.deep_view().contains(c@),
{
    let mut i: usize = 0;
    while i < line.len()
        invariant
            i <= line@.len(),
            forall|j: int| 0 <= j < i ==> (#[trigger] line.deep_view()[j]) != c@,
        decreases line@.len() - i,
    {
        if line[i] == *c {
            proof {
                assert(line.deep_view()[i as int] == c@);
            }
            return true;
        }
        i += 1;
    }
    false
}

/// Whether some already kept row holds the same cells as `line`.
fn contains_row(rows: &Vec<Vec<Coordinates>>, line: &Vec<Coordinates>) -> (r: bool)
    ensures
        r == rows.deep_view().contains(line.deep_view()),
{
    let mut j: usize = 0;
    while j < rows.len()
        invariant
            j <= rows@.len(),
            forall|t: int| 0 <= t < j ==> (#[trigger] rows.deep_view()[t]) != line.deep_view(),
        decreases rows@.len() - j,
    {
        proof {
            lemma_line_view_eq(rows@[j as int]@, line@);
        }
        if vec_coords_equal(&rows[j], line) {
            proof {
                assert(rows.deep_view()[j as int] == line.deep_view());
            }
            return true;
        }
        j += 1;
    }
    false
}

/// Keep `line` if it passes through `c` and no equal row is kept yet. The
/// ghost argument lists the candidates already handled.
fn add_candidate(
    rows: &mut Vec<Vec<Coordinates>>,
    line: Vec<Coordinates>,
    c: &Coordinates,
    prev: Ghost<Seq<Seq<(int, int)>>>,
)
    requires
        old(rows).deep_view() == dedup_rows(prev@.filter(keeps(c@))),
    ensures
        final(rows).deep_view() == dedup_rows(prev@.push(line.deep_view()).filter(keeps(c@))),
{
    let ghost pred = keeps(c@);
    let ghost q = prev@.filter(pred);
    let ghost lv = line.deep_view();
    proof {
        reveal(Seq::filter);
        assert(prev@.push(lv).drop_last() =~= prev@);
        assert(prev@.push(lv).last() == lv);
    }
    if line_contains(&line, c) {
        assert(prev@.push(lv).filter(pred) == q.push(lv));
        let dup = contains_row(rows, &line);
        proof {
            lemma_dedup_rows_contains(q, lv);
        }
        if !dup {
            proof {
                assert(q.push(lv).drop_last() =~= q);
                assert(q.push(lv).last() == lv);
            }
            rows.push(line);
            proof {
                assert(rows.deep_view() =~= dedup_rows(q).push(lv));
            }
        } else {
            proof {
                assert(q.push(lv).drop_last() =~= q);
                assert(q.push(lv).last() == lv);
                assert(dedup_rows(q.push(lv)) == dedup_rows(q));
            }
        }
    } else {
        assert(prev@.push(lv).filter(pred) == q);
    }
}

impl Board {
    /// The number of steps from the left to the right edge.
    pub open spec fn x_size(self) -> int {
        self.max_x - self.min_x
    }

    /// The number of steps from the top to the bottom edge.
    pub open spec fn y_size(self) -> int {
        self.max_y - self.min_y
    }

    /// The candidate line through `c` with direction `(dx, dy)`, restricted
    /// to the playable area.
    pub open spec fn line_through(self, c: (int, int), dx: int, dy: int, size: int) -> Seq<
        (int, int),
    > {
        raw_line(c, dx, dy, size).filter(|p: (int, int)| self.on_board_spec(p))
    }

    /// The four full candidate lines for a move at `c`: the horizontal line
    /// at `c`'s row, the vertical line at `c`'s column, and the two fixed
    /// diagonals anchored at the coordinate origin, each generated over the
    /// symmetric offset range of the bounding box and restricted to on-board
    /// cells. A diagonal survives the later `keeps` filter only when `c`
    /// lies on it, so every line actually examined passes through `c`.
    pub open spec fn candidate_lines(self, c: (int, int)) -> Seq<Seq<(int, int)>> {
        seq![
            self.line_through(c, 1, 0, self.x_size()),
            self.line_through(c, 0, 1, self.y_size()),
            self.line_through((0, 0), 1, 1, self.x_size()),
            self.line_through((0, 0), 1, -1, self.x_size()),
        ]
    }

    /// The lines win detection must examine after a move at `c`: the four
    /// candidate lines, kept only while they still pass through `c` after the
    /// bounds filter, with coinciding lines kept once.
    pub open spec fn affected_rows_spec(self, c: (int, int)) -> Seq<Seq<(int, int)>> {
        dedup_rows(self.candidate_lines(c).filter(keeps(c)))
    }

    /// One candidate line, built by walking the symmetric offset range and
    /// keeping the on-board cells.
    fn build_line(&self, c: &Coordinates, dx: i8, dy: i8, size: i32) -> (r: Vec<Coordinates>)
        requires
            0 <= size <= 255,
            -1 <= dx <= 1,
            -1 <= dy <= 1,
        ensures
            r.deep_view() == self.line_through(c@, dx as int, dy as int, size as int),
    {
        let ghost raw = raw_line(c@, dx as int, dy as int, size as int);
        let ghost pred = |p: (int, int)| self.on_board_spec(p);
        let mut r: Vec<Coordinates> = Vec::new();
        let n: i32 = 2 * size + 1;
        let mut i: i32 = 0;
        proof {
            reveal(Seq::filter);
            assert(raw.take(0) =~= Seq::<(int, int)>::empty());
        }
        while i < n
            invariant
                0 <= i <= n,
                n == 2 * size + 1,
                0 <= size <= 255,
                -1 <= dx <= 1,
                -1 <= dy <= 1,
                raw == raw_line(c@, dx as int, dy as int, size as int),
                pred == (|p: (int, int)| self.on_board_spec(p)),
                r.deep_view() == raw.take(i as int).filter(pred),
            decreases n - i,
        {
            let o = i - size;
            proof {
                assert(-256 <= (dx as int) * (o as int) <= 256) by {
                    if dx == -1 || dx == 1 {
                    } else {
                        assert(dx == 0);
                    }
                }
                assert(-256 <= (dy as int) * (o as int) <= 256) by {
                    if dy == -1 || dy == 1 {
                    } else {
                        assert(dy == 0);
                    }
                }
            }
            let px = (c.x as i32) + (dx as i32) * o;
            let py = (c.y as i32) + (dy as i32) * o;
            proof {
                assert(raw[i as int] == (px as int, py as int));
                assert(raw.take(i + 1).drop_last() =~= raw.take(i as int));
                assert(raw.take(i + 1).last() == raw[i as int]);
                reveal(Seq::filter);
            }
            if (self.min_x as i32) <= px && px <= (self.max_x as i32) && (self.min_y as i32) <= py
                && py <= (self.max_y as i32) {
                let cell = Coordinates { x: px as i8, y: py as i8 };
                r.push(cell);
                proof {
                    assert(cell@ == raw[i as int]);
                    assert(pred(raw[i as int]));
                    assert(r.deep_view() =~= raw.take(i as int).filter(pred).push(raw[i as int]));
                }
            } else {
                proof {
                    assert(!pred(raw[i as int]));
                }
            }
            i += 1;
        }
        proof {
            assert(raw.take(n as int) =~= raw);
        }
        r
    }

    /// The lines win detection examines after a move at the given cell: the
    /// cell's row, the cell's column, and the two origin-anchored diagonals,
    /// each generated over the symmetric offset range of the bounding box
    /// and filtered to on-board cells; a line is kept only if it passes
    /// through the cell, and coinciding lines are kept once.
    pub fn affected_rows(&self, coordinates: &Coordinates) -> (r: Vec<Vec<Coordinates>>)
        requires
            self.bounds_wf(),
        ensures
            r.deep_view() == self.affected_rows_spec(coordinates@),
    {
        let x_size = (self.max_x as i32) - (self.min_x as i32);
        let y_size = (self.max_y as i32) - (self.min_y as i32);
        let ghost cand = self.candidate_lines(coordinates@);
        let ghost pred = keeps(coordinates@);
        let mut rows: Vec<Vec<Coordinates>> = Vec::new();
        proof {
            reveal(Seq::filter);
            assert(Seq::<Seq<(int, int)>>::empty().filter(pred) =~= Seq::<Seq<(int, int)>>::empty());
            assert(rows.deep_view() =~= Seq::<Seq<(int, int)>>::empty());
        }
        let l0 = self.build_line(coordinates, 1, 0, x_size);
        proof {
            assert(l0.deep_view() == cand[0]);
        }
        add_candidate(&mut rows, l0, coordinates, Ghost(Seq::empty()));
        proof {
            assert(Seq::<Seq<(int, int)>>::empty().push(cand[0]) =~= cand.take(1));
        }
        let l1 = self.build_line(coordinates, 0, 1, y_size);
        proof {
            assert(l1.deep_view() == cand[1]);
        }
        add_candidate(&mut rows, l1, coordinates, Ghost(cand.take(1)));
        proof {
            assert(cand.take(1).push(cand[1]) =~= cand.take(2));
        }
        let origin = Coordinates { x: 0, y: 0 };
        let l2 = self.build_line(&origin, 1, 1, x_size);
        proof {
            assert(l2.deep_view() == cand[2]);
        }
        add_candidate(&mut rows, l2, coordinates, Ghost(cand.take(2)));
        proof {
            assert(cand.take(2).push(cand[2]) =~= cand.take(3));
        }
        let l3 = self.build_line(&origin, 1, -1, x_size);
        proof {
            assert(l3.deep_view() == cand[3]);
        }
        add_candidate(&mut rows, l3, coordinates, Ghost(cand.take(3)));
        proof {
            assert(cand.take(3).push(cand[3]) =~= cand);
        }
        rows
    }
}

/// Whether the window of `goal` cells of `line` starting at `start` contains
/// the cell `c`.
pub open spec fn window_covers(line: Seq<(int, int)>, start: int, goal: int, c: (int, int)) -> bool {
    exists|k: int| start <= k < start + goal && line[k] == c
}

/// Whether the window of `goal` cells at `start` passes through `c`.
fn window_covers_exec(line: &Vec<Coordinates>, start: usize, goal: usize, c: &Coordinates) -> (r:
    bool)
    requires
        start + goal <= line@.len(),
    ensures
        r == window_covers(line.deep_view(), start as int, goal as int, c@),
{
    // Pins the line length to a machine word, so the additions below cannot overflow.
    let _n = line.len();
    let end = start + goal;
    let mut k = start;
    while k < end
        invariant
            start <= k <= end,
            end == start + goal,
            end <= line@.len(),
            forall|t: int| start <= t < k ==> (#[trigger] line.deep_view()[t]) != c@,
        decreases end - k,
    {
        if line[k] == *c {
            proof {
                assert(line.deep_view()[k as int] == c@);
            }
            return true;
        }
        k += 1;
    }
    false
}

impl Board {
    /// The window of `goal` cells of `line` starting at `start` is winning:
    /// every cell is occupied, with no gap, and all by the same player.
    pub open spec fn winning_window(self, line: Seq<(int, int)>, start: int, goal: int) -> bool {
        &&& forall|k: int| start <= k < start + goal ==> self@.contains_key(#[trigger] line[k])
        &&& forall|k: int|
            start <= k < start + goal ==> self@[#[trigger] line[k]] == self@[line[start]]
    }

    /// Some window of exactly `goal` consecutive cells of `line` both passes
    /// through `c` and is winning.
    pub open spec fn line_wins(self, line: Seq<(int, int)>, c: (int, int), goal: int) -> bool {
        exists|start: int|
            0 <= start && start + goal <= line.len() && window_covers(line, start, goal, c)
                && self.winning_window(line, start, goal)
    }

    /// The move just played at `c` completed a run of `goal` consecutive
    /// cells of one player on some line through `c`.
    pub open spec fn winning_move_spec(self, c: (int, int), goal: int) -> bool {
        exists|i: int|
            0 <= i < self.affected_rows_spec(c).len() && self.line_wins(
                #[trigger] self.affected_rows_spec(c)[i],
                c,
                goal,
            )
    }

    /// Whether every cell of the window is occupied by one and the same
    /// player.
    fn window_wins(&self, line: &Vec<Coordinates>, start: usize, goal: usize) -> (r: bool)
        requires
            self.wf(),
            1 <= goal,
            start + goal <= line@.len(),
        ensures
            r == self.winning_window(line.deep_view(), start as int, goal as int),
    {
        let ghost ldv = line.deep_view();
        // Pins the line length to a machine word, so the additions below cannot overflow.
        let _n = line.len();
        let end = start + goal;
        let first = self.get(&line[start]);
        match first {
            None => {
                proof {
                    assert(!self@.contains_key(ldv[start as int]));
                }
                false
            },
            Some(p) => {
                let mut k = start + 1;
                while k < end
                    invariant
                        self.wf(),
                        start < k <= end,
                        end == start + goal,
                        end <= line@.len(),
                        ldv == line.deep_view(),
                        self@.contains_key(ldv[start as int]),
                        self@[ldv[start as int]] == p,
                        forall|t: int|
                            start <= t < k ==> self@.contains_key(#[trigger] ldv[t]) && self@[ldv[t]]
                                == p,
                    decreases end - k,
                {
                    let cur = self.get(&line[k]);
                    let same = match cur {
                        Some(q) => q == p,
                        None => false,
                    };
                    if !same {
                        proof {
                            if self@.contains_key(ldv[k as int]) {
                                assert(self@[ldv[k as int]] != self@[ldv[start as int]]);
                            }
                        }
                        return false;
                    }
                    k += 1;
                }
                true
            },
        }
    }

    /// Whether the move just played at the given cell completed a run of
    /// `goal` consecutive same-player cells on one of the affected lines.
    /// Windows that do not include the played cell do not count as this
    /// move's win.
    pub fn is_winning_move(&self, coordinates: &Coordinates, goal: i8) -> (r: bool)
        requires
            self.wf(),
            1 <= goal,
        ensures
            r == self.winning_move_spec(coordinates@, goal as int),
    {
        let rows = self.affected_rows(coordinates);
        let goal_n = goal as usize;
        let ghost ars = self.affected_rows_spec(coordinates@);
        let mut i: usize = 0;
        while i < rows.len()
            invariant
                self.wf(),
                1 <= goal,
                goal_n == goal as usize,
                rows.deep_view() == ars,
                ars == self.affected_rows_spec(coordinates@),
                i <= rows@.len(),
                forall|t: int|
                    0 <= t < i ==> !self.line_wins(#[trigger] ars[t], coordinates@, goal as int),
            decreases rows@.len() - i,
        {
            let row = &rows[i];
            let ghost ldv = ars[i as int];
            proof {
                assert(row.deep_view() == ldv);
            }
            if goal_n <= row.len() {
                let last_start = row.len() - goal_n;
                let mut start: usize = 0;
                while start <= last_start
                    invariant
                        self.wf(),
                        1 <= goal,
                        goal_n == goal as usize,
                        1 <= goal_n,
                        ldv == row.deep_view(),
                        last_start == row@.len() - goal_n,
                        last_start + goal_n <= usize::MAX,
                        start <= last_start + 1,
                        ars == self.affected_rows_spec(coordinates@),
                        0 <= i < ars.len(),
                        ldv == ars[i as int],
                        forall|st: int|
                            0 <= st < start ==> !(window_covers(ldv, st, goal as int, coordinates@)
                                && self.winning_window(ldv, st, goal as int)),
                    decreases row@.len() - start,
                {
                    if window_covers_exec(row, start, goal_n, coordinates) && self.window_wins(
                        row,
                        start,
                        goal_n,
                    ) {
                        proof {
                            assert(self.line_wins(ldv, coordinates@, goal as int));
                            assert(self.affected_rows_spec(coordinates@)[i as int] == ldv);
                        }
                        return true;
                    }
                    start += 1;
                }
                proof {
                    assert forall|st: int|
                        0 <= st && st + goal <= ldv.len() implies !(window_covers(
                        ldv,
                        st,
                        goal as int,
                        coordinates@,
                    ) && self.winning_window(ldv, st, goal as int)) by {
                        assert(st < start);
                    }
                    assert(!self.line_wins(ldv, coordinates@, goal as int));
                }
            } else {
                proof {
                    assert(!self.line_wins(ldv, coordinates@, goal as int));
                }
            }
            i += 1;
        }
        proof {
            assert(!self.winning_move_spec(coordinates@, goal as int));
        }
        false
    }
}

impl Clone for Board {
    /// A board with the same bounds and the same occupied cells.
    fn clone(&self) -> (r: Board)
        ensures
            r@ == self@,
            r.same_bounds(*self),
            self.wf() ==> r.wf(),
    {
        Board {
            cells: copy_cells(&self.cells),
            min_x: self.min_x,
            max_x: self.max_x,
            min_y: self.min_y,
            max_y: self.max_y,
        }
    }
}

/// An element-by-element copy of an entry list.
fn copy_cells(v: &Vec<(Coordinates, Player)>) -> (r: Vec<(Coordinates, Player)>)
    ensures
        r@ == v@,
{
    let mut r: Vec<(Coordinates, Player)> = Vec::new();
    let mut i: usize = 0;
    while i < v.len()
        invariant
            i <= v@.len(),
            r@ == v@.take(i as int),
        decreases v@.len() - i,
    {
        r.push(v[i]);
        proof {
            assert(v@.take(i + 1) =~= v@.take(i as int).push(v@[i as int]));
        }
        i += 1;
    }
    proof {
        assert(v@.take(v@.len() as int) =~= v@);
    }
    r
}

} // verus!
