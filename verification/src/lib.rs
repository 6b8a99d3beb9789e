//! Rules engine for a two-player grid-drop connection game on a fixed
//! 7-column by 6-row grid. Columns are indexed 0..7 and rows 0..6, with
//! row 0 at the bottom: gravity fills each column from the bottom up.
//! The engine holds the grid and the turn marker, applies moves, and
//! detects four-in-a-row lines; all rendering and input live outside it.
use vstd::prelude::*;

verus! {

/// A player's marker. Yellow moves first; the two markers alternate
/// strictly after every accepted, non-winning move.
#[derive(Clone, Copy, Debug, PartialEq, Eq, Structural)]
pub enum Color {
    Yellow,
    Red,
}

/// The marker of the other player.
pub open spec fn opposite(c: Color) -> Color {
    match c {
        Color::Yellow => Color::Red,
        Color::Red => Color::Yellow,
    }
}

impl Color {
    /// The marker of the other player.
    pub fn other(self) -> (r: Color)
        ensures
            r == opposite(self),
    {
        match self {
            Color::Yellow => Color::Red,
            Color::Red => Color::Yellow,
        }
    }
}

/// The outcome of applying one move.
#[derive(Clone, Copy, Debug, PartialEq, Eq, Structural)]
pub enum DropResult {
    /// The marker was placed and no four-in-a-row was formed; the turn
    /// passed to the other player.
    Valid,
    /// The column index was out of range or the column was full; the
    /// game state did not change.
    Invalid,
    /// The marker was placed and completed a four-in-a-row; the turn
    /// stays with the winner.
    Win,
}

/// Whether (x, y) is a grid position: column x in 0..7, row y in 0..6.
pub open spec fn in_bounds(x: int, y: int) -> bool {
    0 <= x < 7 && 0 <= y < 6
}

/// The four line orientations along which four-in-a-row counts:
/// rightward, upward, diagonal up-right, and diagonal down-right.
pub open spec fn is_orientation(dx: int, dy: int) -> bool {
    ||| dx == 1 && dy == 0
    ||| dx == 0 && dy == 1
    ||| dx == 1 && dy == 1
    ||| dx == 1 && dy == -1
}

/// The eight directional unit vectors: the four orientations, each
/// counted both ways.
pub open spec fn is_direction(dx: int, dy: int) -> bool {
    is_orientation(dx, dy) || is_orientation(-dx, -dy)
}

/// The direction scanned at step k of the eightfold scan.
pub open spec fn direction_spec(k: int) -> (int, int)
    recommends
        0 <= k < 8,
{
    if k == 0 {
        (1, 0)
    } else if k == 1 {
        (0, 1)
    } else if k == 2 {
        (-1, 0)
    } else if k == 3 {
        (0, -1)
    } else if k == 4 {
        (1, 1)
    } else if k == 5 {
        (-1, 1)
    } else if k == 6 {
        (1, -1)
    } else {
        (-1, -1)
    }
}

/// Each of the eight unit vectors is walked at some step of the
/// eightfold scan: this picks the step.
proof fn lemma_direction_index(dx: int, dy: int) -> (k: int)
    requires
        is_direction(dx, dy),
    ensures
        0 <= k < 8,
        direction_spec(k) == (dx, dy),
{
    if dx == 1 && dy == 0 {
        0
    } else if dx == 0 && dy == 1 {
        1
    } else if dx == -1 && dy == 0 {
        2
    } else if dx == 0 && dy == -1 {
        3
    } else if dx == 1 && dy == 1 {
        4
    } else if dx == -1 && dy == 1 {
        5
    } else if dx == 1 && dy == -1 {
        6
    } else {
        7
    }
}

/// The direction scanned at step k of the eightfold scan.
fn direction(k: usize) -> (d: (i32, i32))
    requires
        k < 8,
    ensures
        (d.0 as int, d.1 as int) == direction_spec(k as int),
        -1 <= d.0 <= 1,
        -1 <= d.1 <= 1,
{
    match k {
        0 => (1, 0),
        1 => (0, 1),
        2 => (-1, 0),
        3 => (0, -1),
        4 => (1, 1),
        5 => (-1, 1),
        6 => (1, -1),
        _ => (-1, -1),
    }
}

/// The game state: the grid plus whose turn it is.
///
/// The grid is stored flat in column-major order: the cell in column x,
/// row y sits at index `x * 6 + y`.
#[derive(Clone, Debug, PartialEq, Eq)]
pub struct Game {
    pub board: Vec<Option<Color>>,
    pub turn: Color,
}

/// The number of occupied cells holding marker c in s, from index i up.
pub open spec fn color_count_from(s: Seq<Option<Color>>, c: Color, i: int) -> nat
    decreases s.len() - i,
{
    if i < 0 || i >= s.len() {
        0
    } else {
        (if s[i] == Some(c) {
            1nat
        } else {
            0nat
        }) + color_count_from(s, c, i + 1)
    }
}

impl Game {
    /// The grid has exactly 7 * 6 cells.
    pub open spec fn dims_ok(self) -> bool {
        self.board@.len() == 42
    }

    /// The cell in column x, row y.
    pub open spec fn cell(self, x: int, y: int) -> Option<Color>
        recommends
            in_bounds(x, y),
    {
        self.board@[x * 6 + y]
    }

    /// No floating markers: an occupied cell above the bottom row sits
    /// on an occupied cell.
    pub open spec fn gravity_ok(self) -> bool {
        forall|x: int, y: int|
            0 <= x < 7 && 1 <= y < 6 && #[trigger] self.cell(x, y) is Some ==> self.cell(
                x,
                y - 1,
            ) is Some
    }

    /// Well-formed grid: right dimensions and no floating markers.
    pub open spec fn wf(self) -> bool {
        self.dims_ok() && self.gravity_ok()
    }

    /// How many cells hold marker c.
    pub open spec fn color_count(self, c: Color) -> nat {
        color_count_from(self.board@, c, 0)
    }

    /// How many cells are occupied.
    pub open spec fn coin_count(self) -> nat {
        self.color_count(Color::Yellow) + self.color_count(Color::Red)
    }

    /// The marker counts match the turn: when Yellow is to move the two
    /// players hold equally many cells, and when Red is to move Yellow
    /// holds exactly one more. Holds in every state of a game that
    /// stops at the first winning move.
    pub open spec fn turn_balanced(self) -> bool {
        if self.turn is Yellow {
            self.color_count(Color::Yellow) == self.color_count(Color::Red)
        } else {
            self.color_count(Color::Yellow) == self.color_count(Color::Red) + 1
        }
    }

    /// Yellow moves first, so Yellow never trails and never leads by
    /// more than one marker.
    pub open spec fn marker_balance(self) -> bool {
        ||| self.color_count(Color::Yellow) == self.color_count(Color::Red)
        ||| self.color_count(Color::Yellow) == self.color_count(Color::Red) + 1
    }

    /// Position (x, y) is on the grid and holds marker c.
    pub open spec fn marker_at(self, x: int, y: int, c: Color) -> bool {
        in_bounds(x, y) && self.cell(x, y) == Some(c)
    }

    /// Four cells in a row hold marker c, starting at (x, y) and
    /// stepping by (dx, dy).
    pub open spec fn line_win(self, x: int, y: int, dx: int, dy: int, c: Color) -> bool {
        &&& self.marker_at(x, y, c)
        &&& self.marker_at(x + dx, y + dy, c)
        &&& self.marker_at(x + 2 * dx, y + 2 * dy, c)
        &&& self.marker_at(x + 3 * dx, y + 3 * dy, c)
    }

    /// The marker at (x, y) heads a four-in-a-row in direction (dx, dy).
    pub open spec fn line_from(self, x: int, y: int, dx: int, dy: int) -> bool {
        self.cell(x, y) matches Some(c) && self.line_win(x, y, dx, dy, c)
    }

    /// No four-in-a-row heads at (x, y), in any of the eight directions.
    pub open spec fn no_line_at(self, x: int, y: int) -> bool {
        forall|dx: int, dy: int| is_direction(dx, dy) ==> !(#[trigger] self.line_from(x, y, dx, dy))
    }

    /// No four-in-a-row heads at any position before (x, y) in
    /// column-major scan order.
    pub open spec fn scanned(self, x: int, y: int) -> bool {
        forall|i: int, j: int|
            in_bounds(i, j) && (i < x || (i == x && j < y)) ==> #[trigger] self.no_line_at(i, j)
    }

    /// Some four cells that are consecutive along one of the four line
    /// orientations all hold the same marker.
    pub open spec fn has_win(self) -> bool {
        exists|x: int, y: int, dx: int, dy: int, c: Color|
            is_orientation(dx, dy) && #[trigger] self.line_win(x, y, dx, dy, c)
    }

    /// A four-in-a-row found walking any of the eight directions is a
    /// win: a line walked backwards is the same line walked forwards
    /// from its far end.
    proof fn lemma_line_found(self, x: int, y: int, dx: int, dy: int)
        requires
            is_direction(dx, dy),
            self.line_from(x, y, dx, dy),
        ensures
            self.has_win(),
    {
        let c = self.cell(x, y).unwrap();
        assert(self.line_win(x, y, dx, dy, c));
        if is_orientation(dx, dy) {
        } else {
            let x2 = x + 3 * dx;
            let y2 = y + 3 * dy;
            assert(x2 + 2 * (-dx) == x + dx && y2 + 2 * (-dy) == y + dy);
            assert(x2 + 3 * (-dx) == x && y2 + 3 * (-dy) == y);
            assert(self.line_win(x2, y2, -dx, -dy, c));
            assert(is_orientation(-dx, -dy));
        }
    }

    /// Position (nx, ny) is on the grid and holds marker c. The walk of
    /// a line fails as soon as a step leaves the grid or meets a cell
    /// that does not hold c.
    fn same_color_at(&self, nx: i32, ny: i32, c: Color) -> (r: bool)
        requires
            self.dims_ok(),
        ensures
            r == self.marker_at(nx as int, ny as int, c),
    {
        if nx < 0 || ny < 0 || nx > 6 || ny > 5 {
            return false;
        }
        let idx = (nx as usize) * 6 + (ny as usize);
        match self.board[idx] {
            Some(cc) => cc == c,
            None => false,
        }
    }

    /// Whether the marker at `start` heads a four-in-a-row in
    /// `direction`: the three stepped-to cells must all be on the grid
    /// and hold the same marker as the start cell.
    pub fn win_in_direction(&self, start: (usize, usize), direction: (i32, i32)) -> (r: bool)
        requires
            self.dims_ok(),
            start.0 < 7,
            start.1 < 6,
            self.cell(start.0 as int, start.1 as int) is Some,
            -1 <= direction.0 <= 1,
            -1 <= direction.1 <= 1,
        ensures
            r == self.line_from(start.0 as int, start.1 as int, direction.0 as int, direction.1 as int),
    {
        let (sx, sy) = start;
        let (dx, dy) = direction;
        let c = self.board[sx * 6 + sy].unwrap();
        let r1 = self.same_color_at(sx as i32 + dx, sy as i32 + dy, c);
        let r2 = self.same_color_at(sx as i32 + 2 * dx, sy as i32 + 2 * dy, c);
        let r3 = self.same_color_at(sx as i32 + 3 * dx, sy as i32 + 3 * dy, c);
        r1 && r2 && r3
    }

    /// The lowest empty row of column x at or above row y, or 6 when
    /// every cell from y up is occupied.
    pub open spec fn first_empty_from(self, x: int, y: int) -> int
        recommends
            0 <= x < 7,
            0 <= y <= 6,
        decreases 6 - y,
    {
        if y < 0 || y >= 6 {
            6
        } else if self.cell(x, y) is None {
            y
        } else {
            self.first_empty_from(x, y + 1)
        }
    }

    /// The lowest empty row of column x, or 6 when the column is full.
    pub open spec fn first_empty(self, x: int) -> int {
        self.first_empty_from(x, 0)
    }

    /// Column x has no empty cell left.
    pub open spec fn column_full(self, x: int) -> bool {
        self.first_empty(x) == 6
    }

    /// Applies the current player's move to column x: the marker is
    /// placed in the lowest empty cell of the column.
    ///
    /// Rejected moves — a column index outside 0..7 or a full column —
    /// leave the state untouched. A placement fills exactly the one
    /// cell, adds one marker of the mover's color, and keeps the grid
    /// well formed. The move wins exactly when the new grid holds a
    /// four-in-a-row; the turn passes to the other player after a
    /// non-winning placement and stays with the winner otherwise.
    pub fn drop_coin(&mut self, x: usize) -> (r: DropResult)
        requires
            old(self).wf(),
        ensures
            final(self).wf(),
            (r == DropResult::Invalid) <==> (x >= 7 || old(self).column_full(x as int)),
            r == DropResult::Invalid ==> *final(self) == *old(self),
            r != DropResult::Invalid ==> {
                let yy = old(self).first_empty(x as int);
                &&& 0 <= yy < 6
                &&& final(self).cell(x as int, yy) == Some(old(self).turn)
                &&& forall|i: int, j: int|
                    in_bounds(i, j) && !(i == x as int && j == yy) ==> final(self).cell(i, j)
                        == old(self).cell(i, j)
                &&& final(self).color_count(old(self).turn) == old(self).color_count(
                    old(self).turn,
                ) + 1
                &&& final(self).color_count(opposite(old(self).turn)) == old(self).color_count(
                    opposite(old(self).turn),
                )
                &&& final(self).coin_count() == old(self).coin_count() + 1
            },
            r != DropResult::Invalid ==> ((r == DropResult::Win) <==> final(self).has_win()),
            r == DropResult::Valid ==> final(self).turn == opposite(old(self).turn),
            r == DropResult::Win ==> final(self).turn == old(self).turn,
    {
        if x >= 7 {
            return DropResult::Invalid;
        }
        let mut y: usize = 0;
        while y < 6 && self.board[x * 6 + y].is_some()
            invariant
                *self == *old(self),
                self.wf(),
                x < 7,
                y <= 6,
                self.first_empty(x as int) == self.first_empty_from(x as int, y as int),
                forall|j: int| 0 <= j < y ==> self.cell(x as int, j) is Some,
            decreases 6 - y,
        {
            y += 1;
        }
        if y == 6 {
            return DropResult::Invalid;
        }
        assert(self.first_empty(x as int) == y);
        let c = self.turn;
        let ghost pre = *self;
        self.board.set(x * 6 + y, Some(c));
        proof {
            lemma_place(pre, *self, x as int, y as int, c);
        }
        if self.is_win() {
            return DropResult::Win;
        }
        let ghost mid = *self;
        self.turn = self.turn.other();
        proof {
            lemma_win_board_only(mid, *self);
        }
        DropResult::Valid
    }

    /// Whether the grid holds a four-in-a-row. Every occupied cell is
    /// taken as an origin and all eight directions are walked from it;
    /// the scan is redundant but the grid is tiny. The result depends
    /// on the grid alone, so repeated calls on one state agree.
    pub fn is_win(&self) -> (r: bool)
        requires
            self.dims_ok(),
        ensures
            r == self.has_win(),
    {
        let mut x: usize = 0;
        while x < 7
            invariant
                self.dims_ok(),
                x <= 7,
                self.scanned(x as int, 0),
            decreases 7 - x,
        {
            let mut y: usize = 0;
            while y < 6
                invariant
                    self.dims_ok(),
                    x < 7,
                    y <= 6,
                    self.scanned(x as int, y as int),
                decreases 6 - y,
            {
                if self.board[x * 6 + y].is_some() {
                    let mut k: usize = 0;
                    while k < 8
                        invariant
                            self.dims_ok(),
                            x < 7,
                            y < 6,
                            k <= 8,
                            self.cell(x as int, y as int) is Some,
                            forall|kk: int|
                                0 <= kk < k ==> !self.line_from(
                                    x as int,
                                    y as int,
                                    (#[trigger] direction_spec(kk)).0,
                                    direction_spec(kk).1,
                                ),
                        decreases 8 - k,
                    {
                        let d = direction(k);
                        if self.win_in_direction((x, y), d) {
                            proof {
                                self.lemma_line_found(x as int, y as int, d.0 as int, d.1 as int);
                            }
                            return true;
                        }
                        k += 1;
                    }
                    proof {
                        assert forall|dx: int, dy: int| is_direction(dx, dy) implies !(
                        #[trigger] self.line_from(x as int, y as int, dx, dy)) by {
                            let kk = lemma_direction_index(dx, dy);
                        }
                        assert(self.no_line_at(x as int, y as int));
                    }
                } else {
                    proof {
                        assert(self.no_line_at(x as int, y as int));
                    }
                }
                y += 1;
            }
            x += 1;
        }
        proof {
            if self.has_win() {
                let (x, y, dx, dy, c) = choose|x: int, y: int, dx: int, dy: int, c: Color|
                    is_orientation(dx, dy) && #[trigger] self.line_win(x, y, dx, dy, c);
                assert(self.marker_at(x, y, c));
                assert(self.no_line_at(x, y));
                assert(self.line_from(x, y, dx, dy));
                assert(false);
            }
        }
        false
    }

    /// A fresh game: an all-empty grid with Yellow to move.
    pub fn new() -> (g: Game)
        ensures
            g.wf(),
            g.turn == Color::Yellow,
            forall|x: int, y: int| in_bounds(x, y) ==> #[trigger] g.cell(x, y) is None,
            g.coin_count() == 0,
            g.turn_balanced(),
    {
        let mut board: Vec<Option<Color>> = Vec::new();
        let mut n: usize = 0;
        while n < 42
            invariant
                board@.len() == n,
                n <= 42,
                forall|i: int| 0 <= i < n ==> board@[i] is None,
            decreases 42 - n,
        {
            board.push(None);
            n += 1;
        }
        let g = Game { board, turn: Color::Yellow };
        proof {
            lemma_color_count_all_none(g.board@, Color::Yellow, 0);
            lemma_color_count_all_none(g.board@, Color::Red, 0);
        }
        g
    }
}

/// A sequence of empty cells holds no marker of any color.
proof fn lemma_color_count_all_none(s: Seq<Option<Color>>, c: Color, i: int)
    requires
        forall|j: int| 0 <= j < s.len() ==> s[j] is None,
    ensures
        color_count_from(s, c, i) == 0,
    decreases s.len() - i,
{
    if 0 <= i < s.len() {
        lemma_color_count_all_none(s, c, i + 1);
    }
}

/// Law: applying one move keeps the marker counts balanced. `pre` and
/// `post` are the states around a placement as `drop_coin` describes
/// it — the mover's count grew by one, the other count stayed, and the
/// turn passed on unless the move won. If the counts matched the turn
/// before the move, Yellow's count still equals Red's or exceeds it by
/// exactly one afterwards, and after a non-winning move the counts
/// match the turn again.
pub proof fn lemma_move_keeps_balance(pre: Game, post: Game, won: bool)
    requires
        pre.turn_balanced(),
        post.color_count(pre.turn) == pre.color_count(pre.turn) + 1,
        post.color_count(opposite(pre.turn)) == pre.color_count(opposite(pre.turn)),
        post.turn == if won {
            pre.turn
        } else {
            opposite(pre.turn)
        },
    ensures
        post.marker_balance(),
        !won ==> post.turn_balanced(),
{
}

/// Well-formedness and the win status depend on the grid alone, never
/// on whose turn it is.
proof fn lemma_win_board_only(a: Game, b: Game)
    requires
        a.board@ == b.board@,
    ensures
        a.wf() == b.wf(),
        a.has_win() == b.has_win(),
{
    assert forall|x: int, y: int| #![trigger a.cell(x, y)] #![trigger b.cell(x, y)] a.cell(x, y)
        == b.cell(x, y) by {}
    if a.gravity_ok() {
        assert forall|x: int, y: int|
            0 <= x < 7 && 1 <= y < 6 && #[trigger] b.cell(x, y) is Some implies b.cell(
            x,
            y - 1,
        ) is Some by {
            assert(a.cell(x, y) is Some);
        }
    }
    if b.gravity_ok() {
        assert forall|x: int, y: int|
            0 <= x < 7 && 1 <= y < 6 && #[trigger] a.cell(x, y) is Some implies a.cell(
            x,
            y - 1,
        ) is Some by {
            assert(b.cell(x, y) is Some);
        }
    }
    if a.has_win() {
        let (x, y, dx, dy, c) = choose|x: int, y: int, dx: int, dy: int, c: Color|
            is_orientation(dx, dy) && #[trigger] a.line_win(x, y, dx, dy, c);
        assert(b.line_win(x, y, dx, dy, c));
    }
    if b.has_win() {
        let (x, y, dx, dy, c) = choose|x: int, y: int, dx: int, dy: int, c: Color|
            is_orientation(dx, dy) && #[trigger] b.line_win(x, y, dx, dy, c);
        assert(a.line_win(x, y, dx, dy, c));
    }
}

/// Placing a marker in the lowest empty cell of a column fills exactly
/// that cell, adds one marker of its color, and keeps the grid well
/// formed: the cell right below it is already occupied.
proof fn lemma_place(pre: Game, post: Game, x: int, y: int, c: Color)
    requires
        pre.wf(),
        0 <= x < 7,
        0 <= y < 6,
        forall|j: int| 0 <= j < y ==> pre.cell(x, j) is Some,
        pre.cell(x, y) is None,
        post.board@ == pre.board@.update(x * 6 + y, Some(c)),
    ensures
        post.wf(),
        post.cell(x, y) == Some(c),
        forall|i: int, j: int|
            in_bounds(i, j) && !(i == x && j == y) ==> post.cell(i, j) == pre.cell(i, j),
        post.color_count(c) == pre.color_count(c) + 1,
        post.color_count(opposite(c)) == pre.color_count(opposite(c)),
        post.coin_count() == pre.coin_count() + 1,
{
    assert(post.cell(x, y) == Some(c));
    assert forall|i: int, j: int|
        in_bounds(i, j) && !(i == x && j == y) implies post.cell(i, j) == pre.cell(i, j) by {
        assert(i * 6 + j != x * 6 + y);
    }
    assert forall|i: int, j: int|
        0 <= i < 7 && 1 <= j < 6 && #[trigger] post.cell(i, j) is Some implies post.cell(
        i,
        j - 1,
    ) is Some by {
        if i == x && j == y {
            assert(pre.cell(i, j - 1) is Some);
        } else {
            assert(pre.cell(i, j) is Some);
        }
    }
    lemma_color_count_update(pre.board@, x * 6 + y, c, Color::Yellow, 0);
    lemma_color_count_update(pre.board@, x * 6 + y, c, Color::Red, 0);
    assert(opposite(c) == if c is Yellow {
        Color::Red
    } else {
        Color::Yellow
    });
}

/// Filling one empty cell with marker `placed` raises the count of
/// `placed` by one and leaves the count of every other marker alone.
proof fn lemma_color_count_update(s: Seq<Option<Color>>, j: int, placed: Color, c: Color, i: int)
    requires
        0 <= j < s.len(),
        s[j] is None,
        0 <= i <= s.len(),
    ensures
        color_count_from(s.update(j, Some(placed)), c, i) == color_count_from(s, c, i) + if i <= j
            && c == placed {
            1nat
        } else {
            0nat
        },
    decreases s.len() - i,
{
    if i < s.len() {
        lemma_color_count_update(s, j, placed, c, i + 1);
    }
}

} // verus!
