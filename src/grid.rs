use vstd::prelude::*;

verus! {

/// What stands on one square of the maze.
#[derive(Clone, Copy, Debug, PartialEq, Eq, Structural)]
pub enum Cell {
    Floor,
    Wall,
    Start,
    End,
}

/// One move to an adjacent square.
#[derive(Clone, Copy, Debug, PartialEq, Eq, Structural)]
pub enum Direction {
    L,
    R,
    U,
    D,
}

/// Why a grid could not be built.
#[derive(Clone, Copy, Debug, PartialEq, Eq, Structural)]
pub enum GridError {
    /// No rows or no columns, a row count other than `n`, or a row of other length than `m`.
    BadShape,
    /// A byte that is none of `.`, `#`, `A`, `B` (the letters in either case).
    BadSymbol,
    NoStart,
    NoEnd,
}

/// A rectangular maze of `n` rows and `m` columns, and the squares that a route runs
/// between; `from_grid` takes the first start and end cells in row-major order.
pub struct Graph {
    pub grid: Vec<Vec<Cell>>,
    pub m: usize,
    pub n: usize,
    pub start: (usize, usize),
    pub end: (usize, usize),
}

/// The cell that a byte of the input stands for.
pub open spec fn cell_of(b: u8) -> Option<Cell> {
    if b == 46u8 {
        Some(Cell::Floor)
    } else if b == 35u8 {
        Some(Cell::Wall)
    } else if b == 65u8 || b == 97u8 {
        Some(Cell::Start)
    } else if b == 66u8 || b == 98u8 {
        Some(Cell::End)
    } else {
        None
    }
}

/// The square reached from `p` by one move `d`.
pub open spec fn step(p: (int, int), d: Direction) -> (int, int) {
    match d {
        Direction::U => (p.0 - 1, p.1),
        Direction::D => (p.0 + 1, p.1),
        Direction::L => (p.0, p.1 - 1),
        Direction::R => (p.0, p.1 + 1),
    }
}

/// Where the moves `p` lead from `from`.
pub open spec fn follow(from: (int, int), p: Seq<Direction>) -> (int, int)
    decreases p.len(),
{
    if p.len() == 0 {
        from
    } else {
        step(follow(from, p.drop_last()), p.last())
    }
}

/// Position of a direction in the order in which neighbours are listed.
pub open spec fn rank(d: Direction) -> int {
    match d {
        Direction::U => 0,
        Direction::D => 1,
        Direction::L => 2,
        Direction::R => 3,
    }
}

/// `p` comes before `q` in dictionary order, moves compared by `rank`; both of one length.
pub open spec fn lex_lt(p: Seq<Direction>, q: Seq<Direction>) -> bool
    decreases p.len(),
{
    if p.len() == 0 || p.len() != q.len() {
        false
    } else {
        lex_lt(p.drop_last(), q.drop_last()) || (p.drop_last() == q.drop_last() && rank(p.last()) < rank(
            q.last(),
        ))
    }
}

pub open spec fn lex_le(p: Seq<Direction>, q: Seq<Direction>) -> bool {
    p == q || lex_lt(p, q)
}

/// Dictionary order compares the moves before the last one first.
pub proof fn lemma_lex_push(a: Seq<Direction>, b: Seq<Direction>, x: Direction, y: Direction)
    requires
        a.len() == b.len(),
    ensures
        lex_lt(a.push(x), b.push(y)) == (lex_lt(a, b) || (a == b && rank(x) < rank(y))),
{
    assert(a.push(x).drop_last() =~= a);
    assert(b.push(y).drop_last() =~= b);
}

/// Dictionary order is transitive.
pub proof fn lemma_lex_trans(a: Seq<Direction>, b: Seq<Direction>, c: Seq<Direction>)
    requires
        lex_lt(a, b),
        lex_lt(b, c),
    ensures
        lex_lt(a, c),
    decreases a.len(),
{
    if lex_lt(a.drop_last(), b.drop_last()) && lex_lt(b.drop_last(), c.drop_last()) {
        lemma_lex_trans(a.drop_last(), b.drop_last(), c.drop_last());
    }
}

/// No sequence comes before itself, and of two sequences at most one comes first.
pub proof fn lemma_lex_asym(a: Seq<Direction>, b: Seq<Direction>)
    requires
        lex_lt(a, b),
    ensures
        !lex_lt(b, a),
        a != b,
    decreases a.len(),
{
    if lex_lt(a.drop_last(), b.drop_last()) {
        lemma_lex_asym(a.drop_last(), b.drop_last());
    }
}

pub open spec fn shape_ok(n: usize, m: usize, rows: Seq<Vec<u8>>) -> bool {
    &&& n > 0
    &&& m > 0
    &&& rows.len() == n
    &&& forall|i: int| 0 <= i < rows.len() ==> (#[trigger] rows[i])@.len() == m
}

pub open spec fn symbols_ok(rows: Seq<Vec<u8>>) -> bool {
    forall|i: int, j: int|
        0 <= i < rows.len() && 0 <= j < rows[i]@.len() ==> (#[trigger] cell_of(rows[i]@[j])).is_some()
}

pub open spec fn rows_have(rows: Seq<Vec<u8>>, c: Cell) -> bool {
    exists|i: int, j: int|
        0 <= i < rows.len() && 0 <= j < rows[i]@.len() && #[trigger] cell_of(rows[i]@[j]) == Some(c)
}

/// The error that building a grid from `rows` ends in, if any, checked in this order.
pub open spec fn grid_error(n: usize, m: usize, rows: Seq<Vec<u8>>) -> Option<GridError> {
    if !shape_ok(n, m, rows) {
        Some(GridError::BadShape)
    } else if !symbols_ok(rows) {
        Some(GridError::BadSymbol)
    } else if !rows_have(rows, Cell::Start) {
        Some(GridError::NoStart)
    } else if !rows_have(rows, Cell::End) {
        Some(GridError::NoEnd)
    } else {
        None
    }
}

/// Whether `p` comes before `q` in row-major order, or is it.
pub open spec fn row_major_le(p: (int, int), q: (int, int)) -> bool {
    p.0 < q.0 || (p.0 == q.0 && p.1 <= q.1)
}

impl Graph {
    pub open spec fn in_bounds(&self, p: (int, int)) -> bool {
        0 <= p.0 < self.n && 0 <= p.1 < self.m
    }

    pub open spec fn cell(&self, p: (int, int)) -> Cell {
        self.grid@[p.0]@[p.1]
    }

    /// A square inside the grid that is no wall.
    pub open spec fn open_at(&self, p: (int, int)) -> bool {
        self.in_bounds(p) && self.cell(p) != Cell::Wall
    }

    /// `p` holds `c`, and no square before it in row-major order does.
    pub open spec fn first_of(&self, c: Cell, p: (int, int)) -> bool {
        &&& self.in_bounds(p)
        &&& self.cell(p) == c
        &&& forall|q: (int, int)| self.in_bounds(q) && #[trigger] self.cell(q) == c ==> row_major_le(p, q)
    }

    /// `n` rows of `m` cells each.
    pub open spec fn shape_wf(&self) -> bool {
        &&& self.n > 0
        &&& self.m > 0
        &&& self.grid@.len() == self.n
        &&& forall|i: int| 0 <= i < self.n ==> (#[trigger] self.grid@[i])@.len() == self.m
    }

    pub open spec fn has(&self, c: Cell) -> bool {
        exists|p: (int, int)| self.in_bounds(p) && #[trigger] self.cell(p) == c
    }

    /// The grid has its shape, and the start and end squares are open; they may be one square.
    pub open spec fn wf(&self) -> bool {
        &&& self.shape_wf()
        &&& self.open_at(self.start_pos())
        &&& self.open_at(self.end_pos())
    }

    pub open spec fn start_pos(&self) -> (int, int) {
        (self.start.0 as int, self.start.1 as int)
    }

    pub open spec fn end_pos(&self) -> (int, int) {
        (self.end.0 as int, self.end.1 as int)
    }

    /// Every square met on the moves `p` from `from`, `from` itself included, is open.
    pub open spec fn walk_ok(&self, from: (int, int), p: Seq<Direction>) -> bool
        decreases p.len(),
    {
        if p.len() == 0 {
            self.open_at(from)
        } else {
            self.walk_ok(from, p.drop_last()) && self.open_at(follow(from, p))
        }
    }

    /// The moves `p` lead from `from` to `to` over open squares only.
    pub open spec fn walk(&self, from: (int, int), p: Seq<Direction>, to: (int, int)) -> bool {
        self.walk_ok(from, p) && follow(from, p) == to
    }

    /// `p` leads from the start to the end over open squares only.
    pub open spec fn is_route(&self, p: Seq<Direction>) -> bool {
        self.walk(self.start_pos(), p, self.end_pos())
    }

    pub open spec fn reachable(&self) -> bool {
        exists|p: Seq<Direction>| self.is_route(p)
    }

    /// `p` is a route, and no route has fewer moves.
    pub open spec fn is_shortest_route(&self, p: Seq<Direction>) -> bool {
        &&& self.is_route(p)
        &&& forall|q: Seq<Direction>| #[trigger] self.is_route(q) ==> p.len() <= q.len()
    }

    /// `p` is a shortest route, and comes first in dictionary order among the routes of its
    /// length, moves compared by `rank`.
    pub open spec fn is_first_shortest_route(&self, p: Seq<Direction>) -> bool {
        &&& self.is_shortest_route(p)
        &&& forall|q: Seq<Direction>| #[trigger] self.is_route(q) && q.len() == p.len() ==> lex_le(p, q)
    }

    /// The entry for a move `d` from `(i, j)`: present when it lands on an open square.
    pub open spec fn edge(&self, i: int, j: int, d: Direction) -> Seq<(usize, usize, Direction, usize, usize)> {
        let t = step((i, j), d);
        if self.open_at(t) {
            seq![(t.0 as usize, t.1 as usize, d, i as usize, j as usize)]
        } else {
            seq![]
        }
    }

    /// The open neighbours of `(i, j)`, up, down, left, right in that order, each with the
    /// move that reaches it and the square it is reached from.
    pub open spec fn neighbors(&self, i: int, j: int) -> Seq<(usize, usize, Direction, usize, usize)> {
        self.edge(i, j, Direction::U) + self.edge(i, j, Direction::D) + self.edge(i, j, Direction::L)
            + self.edge(i, j, Direction::R)
    }
}

fn parse_cell(b: u8) -> (r: Option<Cell>)
    ensures
        r == cell_of(b),
{
    if b == 46u8 {
        Some(Cell::Floor)
    } else if b == 35u8 {
        Some(Cell::Wall)
    } else if b == 65u8 || b == 97u8 {
        Some(Cell::Start)
    } else if b == 66u8 || b == 98u8 {
        Some(Cell::End)
    } else {
        None
    }
}

impl Graph {
    /// Builds the maze from `n` rows of `m` bytes each, or says what is wrong with them.
    pub fn from_grid(n: usize, m: usize, grid: Vec<Vec<u8>>) -> (r: Result<Graph, GridError>)
        ensures
            r.is_err() <==> grid_error(n, m, grid@).is_some(),
            r matches Err(e) ==> grid_error(n, m, grid@) == Some(e),
            r matches Ok(g) ==> {
                &&& g.wf()
                &&& g.first_of(Cell::Start, g.start_pos())
                &&& g.first_of(Cell::End, g.end_pos())
                &&& g.n == n
                &&& g.m == m
                &&& forall|i: int, j: int|
                    0 <= i < n && 0 <= j < m ==> Some(#[trigger] g.grid@[i]@[j]) == cell_of(grid@[i]@[j])
            },
    {
        if n == 0 || m == 0 || grid.len() != n {
            return Err(GridError::BadShape);
        }
        let mut i: usize = 0;
        while i < n
            invariant
                0 <= i <= n,
                grid@.len() == n,
                forall|k: int| 0 <= k < i ==> (#[trigger] grid@[k])@.len() == m,
            decreases n - i,
        {
            if grid[i].len() != m {
                return Err(GridError::BadShape);
            }
            i = i + 1;
        }
        let mut cells: Vec<Vec<Cell>> = Vec::new();
        i = 0;
        while i < n
            invariant
                0 <= i <= n,
                shape_ok(n, m, grid@),
                cells@.len() == i,
                forall|k: int| 0 <= k < i ==> (#[trigger] cells@[k])@.len() == m,
                forall|k: int, j: int|
                    0 <= k < i && 0 <= j < m ==> Some(#[trigger] cells@[k]@[j]) == cell_of(grid@[k]@[j]),
            decreases n - i,
        {
            let mut row: Vec<Cell> = Vec::new();
            let mut j: usize = 0;
            while j < m
                invariant
                    0 <= i < n,
                    0 <= j <= m,
                    shape_ok(n, m, grid@),
                    row@.len() == j,
                    forall|l: int| 0 <= l < j ==> Some(#[trigger] row@[l]) == cell_of(grid@[i as int]@[l]),
                decreases m - j,
            {
                match parse_cell(grid[i][j]) {
                    Some(c) => row.push(c),
                    None => {
                        assert(!symbols_ok(grid@)) by {
                            assert(cell_of(grid@[i as int]@[j as int]).is_none());
                        }
                        return Err(GridError::BadSymbol);
                    },
                }
                j = j + 1;
            }
            cells.push(row);
            i = i + 1;
        }
        assert(symbols_ok(grid@)) by {
            assert forall|k: int, j: int|
                0 <= k < grid@.len() && 0 <= j < grid@[k]@.len() implies (#[trigger] cell_of(grid@[k]@[j])).is_some() by {
                assert(Some(cells@[k]@[j]) == cell_of(grid@[k]@[j]));
            }
        }
        let mut g = Graph { grid: cells, m, n, start: (0, 0), end: (0, 0) };
        assert(g.has(Cell::Start) == rows_have(grid@, Cell::Start)) by {
            if rows_have(grid@, Cell::Start) {
                let (a, b) = choose|a: int, b: int|
                    0 <= a < grid@.len() && 0 <= b < grid@[a]@.len() && #[trigger] cell_of(grid@[a]@[b]) == Some(Cell::Start);
                assert(g.cell((a, b)) == Cell::Start);
            }
            if g.has(Cell::Start) {
                let p = choose|p: (int, int)| g.in_bounds(p) && #[trigger] g.cell(p) == Cell::Start;
                assert(Some(g.grid@[p.0]@[p.1]) == cell_of(grid@[p.0]@[p.1]));
            }
        }
        assert(g.has(Cell::End) == rows_have(grid@, Cell::End)) by {
            if rows_have(grid@, Cell::End) {
                let (a, b) = choose|a: int, b: int|
                    0 <= a < grid@.len() && 0 <= b < grid@[a]@.len() && #[trigger] cell_of(grid@[a]@[b]) == Some(Cell::End);
                assert(g.cell((a, b)) == Cell::End);
            }
            if g.has(Cell::End) {
                let p = choose|p: (int, int)| g.in_bounds(p) && #[trigger] g.cell(p) == Cell::End;
                assert(Some(g.grid@[p.0]@[p.1]) == cell_of(grid@[p.0]@[p.1]));
            }
        }
        let start = match g.find(Cell::Start) {
            Some(p) => p,
            None => return Err(GridError::NoStart),
        };
        let end = match g.find(Cell::End) {
            Some(p) => p,
            None => return Err(GridError::NoEnd),
        };
        let ghost g0 = g;
        g.start = start;
        g.end = end;
        assert forall|q: (int, int)| #[trigger] g.cell(q) == g0.cell(q) && g.in_bounds(q) == g0.in_bounds(q) by {}
        Ok(g)
    }

    /// The open squares next to `(i, j)`, up, down, left, right in that order, each as
    /// `(row, column, move, i, j)`.
    pub fn has_edges(&self, i: usize, j: usize) -> (r: Vec<(usize, usize, Direction, usize, usize)>)
        requires
            self.shape_wf(),
            self.in_bounds((i as int, j as int)),
        ensures
            r@ == self.neighbors(i as int, j as int),
    {
        let mut product: Vec<(usize, usize, Direction, usize, usize)> = Vec::with_capacity(4);
        if i > 0 && self.grid[i - 1][j] != Cell::Wall {
            product.push((i - 1, j, Direction::U, i, j));
        }
        assert(product@ == self.edge(i as int, j as int, Direction::U));
        let ghost up = product@;
        if i + 1 < self.n && self.grid[i + 1][j] != Cell::Wall {
            product.push((i + 1, j, Direction::D, i, j));
        }
        assert(product@ == up + self.edge(i as int, j as int, Direction::D));
        let ghost down = product@;
        if j > 0 && self.grid[i][j - 1] != Cell::Wall {
            product.push((i, j - 1, Direction::L, i, j));
        }
        assert(product@ == down + self.edge(i as int, j as int, Direction::L));
        let ghost left = product@;
        if j + 1 < self.m && self.grid[i][j + 1] != Cell::Wall {
            product.push((i, j + 1, Direction::R, i, j));
        }
        assert(product@ == left + self.edge(i as int, j as int, Direction::R));
        product
    }

    /// The cell at `(i, j)`, or `None` outside the grid.
    pub fn cell_at(&self, i: usize, j: usize) -> (r: Option<Cell>)
        requires
            self.shape_wf(),
        ensures
            r.is_some() <==> self.in_bounds((i as int, j as int)),
            r matches Some(c) ==> c == self.cell((i as int, j as int)),
    {
        if i < self.n && j < self.m {
            Some(self.grid[i][j])
        } else {
            None
        }
    }

    /// The number of rows and of columns.
    pub fn dimensions(&self) -> (r: (usize, usize))
        ensures
            r == (self.n, self.m),
    {
        (self.n, self.m)
    }

    pub fn start_coordinate(&self) -> (r: (usize, usize))
        ensures
            r == self.start,
    {
        self.start
    }

    pub fn end_coordinate(&self) -> (r: (usize, usize))
        ensures
            r == self.end,
    {
        self.end
    }

    /// The first square in row-major order that holds `c`.
    pub fn find(&self, c: Cell) -> (r: Option<(usize, usize)>)
        requires
            self.shape_wf(),
        ensures
            r.is_none() <==> !self.has(c),
            r matches Some(p) ==> self.first_of(c, (p.0 as int, p.1 as int)),
    {
        let mut i: usize = 0;
        while i < self.n
            invariant
                self.shape_wf(),
                0 <= i <= self.n,
                forall|q: (int, int)| self.in_bounds(q) && q.0 < i ==> #[trigger] self.cell(q) != c,
            decreases self.n - i,
        {
            let mut j: usize = 0;
            while j < self.m
                invariant
                    self.shape_wf(),
                    0 <= i < self.n,
                    0 <= j <= self.m,
                    forall|q: (int, int)| self.in_bounds(q) && q.0 < i ==> #[trigger] self.cell(q) != c,
                    forall|l: int| 0 <= l < j ==> self.cell((i as int, l)) != c,
                decreases self.m - j,
            {
                if self.grid[i][j] == c {
                    assert(self.cell((i as int, j as int)) == c);
                    assert forall|q: (int, int)| self.in_bounds(q) && #[trigger] self.cell(q) == c implies row_major_le(
                        (i as int, j as int),
                        q,
                    ) by {
                        if q.0 == i {
                            assert(self.cell((i as int, q.1)) == self.cell(q));
                        }
                    }
                    return Some((i, j));
                }
                j = j + 1;
            }
            i = i + 1;
        }
        None
    }
}

} // verus!
