use vstd::prelude::*;

verus! {

/// An addressable grid coordinate: column `x`, row `y`.
#[derive(Debug, Clone, Copy, PartialEq, Eq, Structural)]
pub struct CellHandle {
    pub x: usize,
    pub y: usize,
}

impl CellHandle {
    pub fn new(x: usize, y: usize) -> (r: Self)
        ensures
            r.x == x,
            r.y == y,
    {
        CellHandle { x, y }
    }
}

/// The decimal digits of `n`, most significant first.
pub open spec fn decimal(n: nat) -> Seq<char>
    decreases n,
{
    let d = ((n % 10) + 48) as char;
    if n < 10 {
        seq![d]
    } else {
        decimal(n / 10).push(d)
    }
}

/// Relies on `format!` with `usize`'s `Display`, which writes a number in
/// decimal without sign or padding.
#[verifier::external_body]
fn format_pair(x: usize, y: usize) -> (r: String)
    ensures
        r@ == decimal(x as nat) + seq![','] + decimal(y as nat),
{
    format!("{},{}", x, y)
}

impl CellHandle {
    /// The handle written as `x,y`.
    pub fn to_string(&self) -> (r: String)
        ensures
            r@ == decimal(self.x as nat) + seq![','] + decimal(self.y as nat),
    {
        format_pair(self.x, self.y)
    }
}

impl Default for CellHandle {
    fn default() -> (r: Self)
        ensures
            r.x == 0,
            r.y == 0,
    {
        CellHandle { x: 0, y: 0 }
    }
}

/// The player's guess about a marked cell.
#[derive(Debug, Clone, Copy, PartialEq, Eq, Structural)]
pub enum Mark {
    Empty,
    Mine,
}

/// Visibility of one cell; exactly one variant holds at a time.
#[derive(Debug, Clone, Copy, PartialEq, Eq, Structural)]
pub enum CellState {
    Hidden,
    Marked(Mark),
    Revealed,
}

/// What revealing a cell yields (or would yield).
#[derive(Debug, Clone, Copy, PartialEq, Eq, Structural)]
pub enum RevealResult {
    Mine,
    Empty(usize),
    AlreadyRevealed,
}

/// The state that `toggle_mark` moves a cell to.
pub open spec fn next_mark_state(s: CellState) -> CellState {
    match s {
        CellState::Hidden => CellState::Marked(Mark::Mine),
        CellState::Marked(Mark::Mine) => CellState::Marked(Mark::Empty),
        CellState::Marked(Mark::Empty) => CellState::Hidden,
        CellState::Revealed => CellState::Revealed,
    }
}

/// One grid position.
#[derive(Debug, Clone, Copy)]
pub struct Cell {
    state: CellState,
    pub is_mine: bool,
    adjacent_mines: Option<usize>,
    pub is_dirty: bool,
}

impl Cell {
    pub closed spec fn visibility(&self) -> CellState {
        self.state
    }

    pub closed spec fn mine(&self) -> bool {
        self.is_mine
    }

    /// Set after every visibility change; cleared by whoever repaints the cell.
    pub closed spec fn dirty(&self) -> bool {
        self.is_dirty
    }

    /// The memoized adjacency count, if it has been computed.
    pub closed spec fn cached_adjacent(&self) -> Option<usize> {
        self.adjacent_mines
    }

    pub fn new() -> (r: Self)
        ensures
            r.visibility() == CellState::Hidden,
            !r.mine(),
            !r.dirty(),
            r.cached_adjacent() is None,
    {
        Cell { state: CellState::Hidden, is_mine: false, adjacent_mines: None, is_dirty: false }
    }

    pub fn set_state(&mut self, state: CellState)
        ensures
            final(self).visibility() == state,
            final(self).dirty(),
            final(self).mine() == old(self).mine(),
            final(self).cached_adjacent() == old(self).cached_adjacent(),
    {
        self.state = state;
        self.is_dirty = true;
    }

    /// Sets whether the cell holds a mine; done once, before the cell joins a board.
    pub fn set_mine(&mut self, is_mine: bool)
        ensures
            final(self).mine() == is_mine,
            final(self).visibility() == old(self).visibility(),
            final(self).dirty() == old(self).dirty(),
            final(self).cached_adjacent() == old(self).cached_adjacent(),
    {
        self.is_mine = is_mine;
    }

    pub fn is_mine(&self) -> (r: bool)
        ensures
            r == self.mine(),
    {
        self.is_mine
    }

    pub fn get_state(&self) -> (r: &CellState)
        ensures
            *r == self.visibility(),
    {
        &self.state
    }
}

impl Default for Cell {
    fn default() -> (r: Self)
        ensures
            r.visibility() == CellState::Hidden,
            !r.mine(),
            !r.dirty(),
            r.cached_adjacent() is None,
    {
        Cell::new()
    }
}

/// `b` lies in the Moore neighbourhood of `a` (the up-to-eight surrounding
/// positions), `a` itself excluded.
pub open spec fn is_adjacent(a: CellHandle, b: CellHandle) -> bool {
    a != b && a.x - 1 <= b.x <= a.x + 1 && a.y - 1 <= b.y <= a.y + 1
}

/// A cell that is neither revealed nor a mine.
pub open spec fn is_hidden_safe(c: Cell) -> bool {
    c.visibility() != CellState::Revealed && !c.mine()
}

/// Number of cells of `s` that are neither revealed nor mines.
pub open spec fn hidden_safe_count(s: Seq<Cell>) -> nat
    decreases s.len(),
{
    if s.len() == 0 {
        0
    } else {
        hidden_safe_count(s.drop_last()) + if is_hidden_safe(s.last()) {
            1nat
        } else {
            0nat
        }
    }
}

/// Number of cells of `s` that are not revealed.
pub open spec fn unrevealed_count(s: Seq<Cell>) -> nat
    decreases s.len(),
{
    if s.len() == 0 {
        0
    } else {
        unrevealed_count(s.drop_last()) + if s.last().visibility() != CellState::Revealed {
            1nat
        } else {
            0nat
        }
    }
}

/// Number of cells of `s` that are mines and not revealed.
pub open spec fn unrevealed_mine_count(s: Seq<Cell>) -> nat
    decreases s.len(),
{
    if s.len() == 0 {
        0
    } else {
        unrevealed_mine_count(s.drop_last()) + if s.last().visibility() != CellState::Revealed
            && s.last().mine() {
            1nat
        } else {
            0nat
        }
    }
}

/// The unrevealed cells are the hidden safe ones and the unrevealed mines.
pub proof fn lemma_unrevealed_split(s: Seq<Cell>)
    ensures
        unrevealed_count(s) == hidden_safe_count(s) + unrevealed_mine_count(s),
    decreases s.len(),
{
    if s.len() > 0 {
        lemma_unrevealed_split(s.drop_last());
    }
}

/// The board: `width * height` cells, cell `(x, y)` stored at `x * height + y`.
#[derive(Clone)]
pub struct Field {
    pub width: usize,
    pub height: usize,
    elements: Vec<Cell>,
    count_unrevealed: usize,
    hidden_mines: Ghost<nat>,
}

impl Field {
    /// Number of columns (the `width` field).
    pub closed spec fn columns(&self) -> nat {
        self.width as nat
    }

    /// Number of rows (the `height` field).
    pub closed spec fn rows(&self) -> nat {
        self.height as nat
    }

    pub closed spec fn cells(&self) -> Seq<Cell> {
        self.elements@
    }

    /// The hidden count as the board tracks it. It starts as the number of
    /// unrevealed cells, mines included, and goes down by one with each safe
    /// cell revealed; revealing a mine leaves it as it is.
    pub closed spec fn tracked_hidden(&self) -> nat {
        self.count_unrevealed as nat
    }

    /// How many mines were unrevealed when the board was built; the tracked
    /// hidden count is the hidden safe cells plus this number.
    pub closed spec fn mines_hidden_at_start(&self) -> nat {
        self.hidden_mines@
    }

    pub open spec fn contains(&self, c: CellHandle) -> bool {
        c.x < self.columns() && c.y < self.rows()
    }

    pub open spec fn index_of(&self, c: CellHandle) -> int {
        c.x * self.rows() + c.y
    }

    pub open spec fn cell_at(&self, c: CellHandle) -> Cell {
        self.cells()[self.index_of(c)]
    }

    pub open spec fn is_revealed(&self, c: CellHandle) -> bool {
        self.cell_at(c).visibility() == CellState::Revealed
    }

    /// Holds of the positions whose cell is a mine.
    pub open spec fn mine_pred(&self) -> spec_fn(CellHandle) -> bool {
        |b: CellHandle| self.cell_at(b).mine()
    }

    /// The in-bounds positions adjacent to `c`.
    pub open spec fn neighbors_of(&self, c: CellHandle) -> Set<CellHandle> {
        Set::new(|b: CellHandle| self.contains(b) && is_adjacent(c, b))
    }

    /// Number of mines among the neighbours of `c`.
    pub open spec fn adjacent_mines_of(&self, c: CellHandle) -> nat {
        self.neighbors_of(c).filter(self.mine_pred()).len()
    }

    /// Number of cells that are neither revealed nor mines, recounted.
    pub open spec fn hidden_safe(&self) -> nat {
        hidden_safe_count(self.cells())
    }

    /// Every cell that is not a mine is revealed.
    pub open spec fn won(&self) -> bool {
        forall|c: CellHandle|
            self.contains(c) && !(#[trigger] self.cell_at(c)).mine() ==> self.is_revealed(c)
    }

    /// Both boards have the same dimensions and the same mines.
    pub open spec fn same_layout(&self, other: &Field) -> bool {
        &&& self.columns() == other.columns()
        &&& self.rows() == other.rows()
        &&& self.cells().len() == other.cells().len()
        &&& forall|c: CellHandle|
            self.contains(c) ==> (#[trigger] self.cell_at(c)).mine() == other.cell_at(c).mine()
    }

    /// The cell at `c` shows the same to a reader on both boards.
    pub open spec fn same_cell(&self, other: &Field, c: CellHandle) -> bool {
        &&& self.cell_at(c).visibility() == other.cell_at(c).visibility()
        &&& self.cell_at(c).mine() == other.cell_at(c).mine()
        &&& self.cell_at(c).dirty() == other.cell_at(c).dirty()
    }

    /// `r` is what revealing `c` yields on this board.
    pub open spec fn is_reveal_outcome(&self, c: CellHandle, r: RevealResult) -> bool {
        match r {
            RevealResult::AlreadyRevealed => self.is_revealed(c),
            RevealResult::Mine => !self.is_revealed(c) && self.cell_at(c).mine(),
            RevealResult::Empty(k) => !self.is_revealed(c) && !self.cell_at(c).mine() && k
                == self.adjacent_mines_of(c),
        }
    }

    /// `after` is this board once `c` has been revealed, with result `r`.
    pub open spec fn reveal_transition(&self, after: &Field, c: CellHandle, r: RevealResult) -> bool {
        &&& self.is_reveal_outcome(c, r)
        &&& after.wf()
        &&& after.same_layout(self)
        &&& after.same_except(self, c)
        &&& r is AlreadyRevealed ==> *after == *self
        &&& !(r is AlreadyRevealed) ==> after.is_revealed(c) && after.cell_at(c).dirty()
        &&& after.hidden_safe() == self.hidden_safe() - if r is Empty {
            1int
        } else {
            0int
        }
        &&& after.tracked_hidden() == self.tracked_hidden() - if r is Empty {
            1int
        } else {
            0int
        }
        &&& after.mines_hidden_at_start() == self.mines_hidden_at_start()
        &&& r is Empty ==> after.cell_at(c).cached_adjacent() == Some(r->Empty_0)
        &&& r is Mine ==> after.cell_at(c).cached_adjacent() == self.cell_at(c).cached_adjacent()
    }

    /// `after` is this board once the mark of `c` has been toggled.
    pub open spec fn toggle_transition(&self, after: &Field, c: CellHandle) -> bool {
        &&& after.wf()
        &&& after.same_layout(self)
        &&& after.same_except(self, c)
        &&& after.cell_at(c).visibility() == next_mark_state(self.cell_at(c).visibility())
        &&& after.cell_at(c).cached_adjacent() == self.cell_at(c).cached_adjacent()
        &&& self.is_revealed(c) ==> *after == *self
        &&& !self.is_revealed(c) ==> after.cell_at(c).dirty()
        &&& after.hidden_safe() == self.hidden_safe()
        &&& after.tracked_hidden() == self.tracked_hidden()
        &&& after.mines_hidden_at_start() == self.mines_hidden_at_start()
    }

    /// Every cell but the one at `c` is the same on both boards.
    pub open spec fn same_except(&self, other: &Field, c: CellHandle) -> bool {
        forall|b: CellHandle|
            self.contains(b) && b != c ==> #[trigger] self.cell_at(b) == other.cell_at(b)
    }

    /// The storage holds one cell per position, the tracked hidden count is
    /// the hidden safe cells plus the mines unrevealed at construction, and
    /// every memoized adjacency count is right.
    pub closed spec fn wf(&self) -> bool {
        &&& self.elements@.len() == self.width * self.height
        &&& self.width * self.height <= usize::MAX
        &&& self.count_unrevealed == hidden_safe_count(self.elements@) + self.hidden_mines@
        &&& forall|c: CellHandle|
            self.contains(c) && (#[trigger] self.cell_at(c)).cached_adjacent() is Some
                ==> self.cell_at(c).cached_adjacent().unwrap() == self.adjacent_mines_of(c)
    }
}

impl Field {
    /// Builds a board from its cells, column by column; any memoized adjacency
    /// count the cells carry is dropped, and the hidden count starts as the
    /// number of unrevealed cells, mines included.
    pub fn new(width: usize, height: usize, cells: Vec<Cell>) -> (r: Self)
        requires
            cells@.len() == width * height,
        ensures
            r.wf(),
            r.columns() == width,
            r.rows() == height,
            r.cells().len() == cells@.len(),
            forall|i: int|
                0 <= i < cells@.len() ==> {
                    &&& (#[trigger] r.cells()[i]).visibility() == cells@[i].visibility()
                    &&& r.cells()[i].mine() == cells@[i].mine()
                    &&& r.cells()[i].dirty() == cells@[i].dirty()
                    &&& r.cells()[i].cached_adjacent() is None
                },
            r.tracked_hidden() == unrevealed_count(cells@),
            r.mines_hidden_at_start() == unrevealed_mine_count(cells@),
    {
        let n = cells.len();
        let mut elements: Vec<Cell> = Vec::with_capacity(n);
        let mut count: usize = 0;
        let ghost mut mines: nat = 0;
        let mut i: usize = 0;
        while i < n
            invariant
                n == cells@.len(),
                i <= n,
                elements@.len() == i,
                count == unrevealed_count(elements@),
                count == unrevealed_count(cells@.take(i as int)),
                mines == unrevealed_mine_count(elements@),
                mines == unrevealed_mine_count(cells@.take(i as int)),
                count <= i,
                forall|j: int|
                    0 <= j < i ==> {
                        &&& (#[trigger] elements@[j]).state == cells@[j].state
                        &&& elements@[j].is_mine == cells@[j].is_mine
                        &&& elements@[j].is_dirty == cells@[j].is_dirty
                        &&& elements@[j].adjacent_mines is None
                    },
            decreases n - i,
        {
            let mut cell = cells[i];
            cell.adjacent_mines = None;
            let ghost before = elements@;
            elements.push(cell);
            proof {
                assert(elements@.drop_last() =~= before);
                assert(cells@.take(i + 1).drop_last() =~= cells@.take(i as int));
            }
            if cell.state != CellState::Revealed {
                count = count + 1;
                if cell.is_mine {
                    proof {
                        mines = mines + 1;
                    }
                }
            }
            i = i + 1;
        }
        proof {
            assert(cells@.take(n as int) =~= cells@);
            lemma_unrevealed_split(elements@);
        }
        let r = Field { width, height, elements, count_unrevealed: count, hidden_mines: Ghost(mines) };
        assert forall|c: CellHandle|
            r.contains(c) && (#[trigger] r.cell_at(c)).cached_adjacent() is Some implies
            r.cell_at(c).cached_adjacent().unwrap() == r.adjacent_mines_of(c) by {
            lemma_index_in_range(width as int, height as int, c.x as int, c.y as int);
        }
        r
    }

    fn index(&self, c: CellHandle) -> (r: usize)
        requires
            self.wf(),
            self.contains(c),
        ensures
            r == self.index_of(c),
            r < self.cells().len(),
    {
        proof {
            lemma_index_in_range(self.width as int, self.height as int, c.x as int, c.y as int);
        }
        c.x * self.height + c.y
    }

    /// The in-bounds positions around `cell`, each once.
    pub fn get_neighbors(&self, cell: CellHandle) -> (r: Vec<CellHandle>)
        requires
            self.contains(cell),
        ensures
            r@.no_duplicates(),
            r@.to_set() == self.neighbors_of(cell),
            forall|b: CellHandle| #[trigger] r@.contains(b) <==> self.neighbors_of(cell).contains(b),
    {
        let mut ret: Vec<CellHandle> = Vec::new();
        let x_lo: usize = if cell.x > 0 { cell.x - 1 } else { 0 };
        let x_hi: usize = if cell.x + 1 < self.width { cell.x + 1 } else { self.width - 1 };
        let y_lo: usize = if cell.y > 0 { cell.y - 1 } else { 0 };
        let y_hi: usize = if cell.y + 1 < self.height { cell.y + 1 } else { self.height - 1 };
        let mut x: usize = x_lo;
        while x <= x_hi
            invariant
                x_lo <= x <= x_hi + 1,
                x_hi < self.width,
                y_hi < self.height,
                x_lo == if cell.x > 0 { cell.x - 1 } else { 0 },
                x_hi == if cell.x + 1 < self.width { cell.x + 1 } else { self.width - 1 },
                y_lo == if cell.y > 0 { cell.y - 1 } else { 0 },
                y_hi == if cell.y + 1 < self.height { cell.y + 1 } else { self.height - 1 },
                self.contains(cell),
                ret@.no_duplicates(),
                forall|b: CellHandle| #[trigger]
                    ret@.contains(b) <==> (self.neighbors_of(cell).contains(b) && b.x < x),
            decreases x_hi + 1 - x,
        {
            let mut y: usize = y_lo;
            while y <= y_hi
                invariant
                    x_lo <= x <= x_hi,
                    y_lo <= y <= y_hi + 1,
                    x_hi < self.width,
                    y_hi < self.height,
                    x_lo == if cell.x > 0 { cell.x - 1 } else { 0 },
                    x_hi == if cell.x + 1 < self.width { cell.x + 1 } else { self.width - 1 },
                    y_lo == if cell.y > 0 { cell.y - 1 } else { 0 },
                    y_hi == if cell.y + 1 < self.height { cell.y + 1 } else { self.height - 1 },
                    self.contains(cell),
                    ret@.no_duplicates(),
                    forall|b: CellHandle| #[trigger]
                        ret@.contains(b) <==> (self.neighbors_of(cell).contains(b) && (b.x < x
                            || (b.x == x && b.y < y))),
                decreases y_hi + 1 - y,
            {
                if !(x == cell.x && y == cell.y) {
                    let h = CellHandle::new(x, y);
                    let ghost before = ret@;
                    assert(!before.contains(h));
                    ret.push(h);
                    assert forall|b: CellHandle| #[trigger]
                        ret@.contains(b) <==> (self.neighbors_of(cell).contains(b) && (b.x < x
                            || (b.x == x && b.y < y + 1))) by {
                        if b == h {
                            assert(ret@[before.len() as int] == h);
                        } else {
                            if ret@.contains(b) {
                                let k = choose|k: int| 0 <= k < ret@.len() && ret@[k] == b;
                                assert(before[k] == b);
                            }
                            if before.contains(b) {
                                let k = choose|k: int| 0 <= k < before.len() && before[k] == b;
                                assert(ret@[k] == b);
                            }
                        }
                    }
                }
                y = y + 1;
            }
            x = x + 1;
        }
        proof {
            assert(ret@.to_set() =~= self.neighbors_of(cell));
        }
        ret
    }
}

impl Field {
    /// The number of mines around `cell`: the memoized value if there is one,
    /// else counted and then memoized.
    pub fn get_adjacent_mines(&mut self, cell: CellHandle) -> (r: usize)
        requires
            old(self).wf(),
            old(self).contains(cell),
        ensures
            r == old(self).adjacent_mines_of(cell),
            final(self).wf(),
            final(self).same_layout(old(self)),
            final(self).same_except(old(self), cell),
            final(self).same_cell(old(self), cell),
            final(self).cell_at(cell).cached_adjacent() == Some(r),
            old(self).cell_at(cell).cached_adjacent() is Some ==> *final(self) == *old(self),
            final(self).hidden_safe() == old(self).hidden_safe(),
            final(self).tracked_hidden() == old(self).tracked_hidden(),
            final(self).mines_hidden_at_start() == old(self).mines_hidden_at_start(),
    {
        let idx = self.index(cell);
        let mut c = self.elements[idx];
        match c.adjacent_mines {
            Some(adj) => {
                assert(self.cell_at(cell) == c);
                adj
            },
            None => {
                let adj = self.count_adjacent_mines(cell);
                c.adjacent_mines = Some(adj);
                let ghost f = *self;
                self.elements.set(idx, c);
                proof {
                    lemma_count_update(f.elements@, idx as int, c);
                    lemma_replace_cell(f, *self, cell, c);
                }
                adj
            },
        }
    }

    /// What revealing `cell` would yield, without changing the board.
    pub fn try_reveal(&self, cell: CellHandle) -> (r: RevealResult)
        requires
            self.wf(),
            self.contains(cell),
        ensures
            self.is_reveal_outcome(cell, r),
    {
        let idx = self.index(cell);
        let c = &self.elements[idx];
        if c.state == CellState::Revealed {
            return RevealResult::AlreadyRevealed;
        }
        if c.is_mine {
            return RevealResult::Mine;
        }
        match c.adjacent_mines {
            Some(adj) => {
                assert(self.cell_at(cell) == *c);
                RevealResult::Empty(adj)
            },
            None => RevealResult::Empty(self.count_adjacent_mines(cell)),
        }
    }

    /// Reveals `cell`. A revealed cell is left as it is; a mine is exposed;
    /// any other cell is opened, its count memoized, and the hidden count
    /// goes down by one. A mark on the cell goes with it.
    pub fn reveal_cell(&mut self, cell: CellHandle) -> (r: RevealResult)
        requires
            old(self).wf(),
            old(self).contains(cell),
        ensures
            old(self).reveal_transition(final(self), cell, r),
    {
        let r = self.try_reveal(cell);
        let idx = self.index(cell);
        let ghost f = *self;
        match r {
            RevealResult::Mine => {
                let mut c = self.elements[idx];
                c.set_state(CellState::Revealed);
                self.elements.set(idx, c);
                proof {
                    lemma_count_update(f.elements@, idx as int, c);
                    lemma_replace_cell(f, *self, cell, c);
                }
            },
            RevealResult::Empty(adjacent_mines) => {
                let mut c = self.elements[idx];
                c.set_state(CellState::Revealed);
                c.adjacent_mines = Some(adjacent_mines);
                self.elements.set(idx, c);
                proof {
                    lemma_count_update(f.elements@, idx as int, c);
                }
                self.count_unrevealed = self.count_unrevealed - 1;
                proof {
                    lemma_replace_cell(f, *self, cell, c);
                }
            },
            RevealResult::AlreadyRevealed => {},
        }
        r
    }

    /// Cycles the mark of a cell: hidden, marked as a mine, marked as empty,
    /// hidden again. A revealed cell is left as it is.
    pub fn toggle_mark(&mut self, cell: CellHandle)
        requires
            old(self).wf(),
            old(self).contains(cell),
        ensures
            old(self).toggle_transition(final(self), cell),
    {
        let idx = self.index(cell);
        let mut c = self.elements[idx];
        let ghost f = *self;
        let next = match c.state {
            CellState::Hidden => CellState::Marked(Mark::Mine),
            CellState::Marked(Mark::Mine) => CellState::Marked(Mark::Empty),
            CellState::Marked(Mark::Empty) => CellState::Hidden,
            CellState::Revealed => {
                return ;
            },
        };
        c.set_state(next);
        self.elements.set(idx, c);
        proof {
            lemma_count_update(f.elements@, idx as int, c);
            lemma_replace_cell(f, *self, cell, c);
        }
    }

    /// Whether every cell that is not a mine has been revealed.
    pub fn is_won(&self) -> (r: bool)
        requires
            self.wf(),
        ensures
            r == self.won(),
    {
        let mut i: usize = 0;
        while i < self.elements.len()
            invariant
                self.wf(),
                i <= self.elements@.len(),
                forall|j: int|
                    0 <= j < i && !(#[trigger] self.elements@[j]).is_mine
                        ==> self.elements@[j].state == CellState::Revealed,
            decreases self.elements@.len() - i,
        {
            if !self.elements[i].is_mine && self.elements[i].state != CellState::Revealed {
                proof {
                    let c = lemma_handle_of_index(*self, i as int);
                    assert(!self.cell_at(c).mine());
                }
                return false;
            }
            i = i + 1;
        }
        assert forall|c: CellHandle|
            self.contains(c) && !(#[trigger] self.cell_at(c)).mine() implies self.is_revealed(c) by {
            lemma_index_in_range(self.width as int, self.height as int, c.x as int, c.y as int);
        }
        true
    }

    /// Every position of the board, each once.
    pub fn get_handles(&self) -> (r: Vec<CellHandle>)
        ensures
            r@.no_duplicates(),
            forall|b: CellHandle| #[trigger] r@.contains(b) <==> self.contains(b),
    {
        let mut ret: Vec<CellHandle> = Vec::new();
        let mut x: usize = 0;
        while x < self.width
            invariant
                x <= self.width,
                ret@.no_duplicates(),
                forall|b: CellHandle| #[trigger]
                    ret@.contains(b) <==> (self.contains(b) && b.x < x),
            decreases self.width - x,
        {
            let mut y: usize = 0;
            while y < self.height
                invariant
                    x < self.width,
                    y <= self.height,
                    ret@.no_duplicates(),
                    forall|b: CellHandle| #[trigger]
                        ret@.contains(b) <==> (self.contains(b) && (b.x < x || (b.x == x && b.y
                            < y))),
                decreases self.height - y,
            {
                let h = CellHandle::new(x, y);
                let ghost before = ret@;
                assert(!before.contains(h));
                ret.push(h);
                assert forall|b: CellHandle| #[trigger]
                    ret@.contains(b) <==> (self.contains(b) && (b.x < x || (b.x == x && b.y < y
                        + 1))) by {
                    if b == h {
                        assert(ret@[before.len() as int] == h);
                    } else {
                        if ret@.contains(b) {
                            let k = choose|k: int| 0 <= k < ret@.len() && ret@[k] == b;
                            assert(before[k] == b);
                        }
                        if before.contains(b) {
                            let k = choose|k: int| 0 <= k < before.len() && before[k] == b;
                            assert(ret@[k] == b);
                        }
                    }
                }
                y = y + 1;
            }
            x = x + 1;
        }
        ret
    }

    /// The number of columns.
    pub fn width(&self) -> (r: usize)
        ensures
            r == self.columns(),
    {
        self.width
    }

    /// The number of rows.
    pub fn height(&self) -> (r: usize)
        ensures
            r == self.rows(),
    {
        self.height
    }

    /// The cell at `cell`.
    pub fn cell(&self, cell: CellHandle) -> (r: &Cell)
        requires
            self.wf(),
            self.contains(cell),
        ensures
            *r == self.cell_at(cell),
    {
        let idx = self.index(cell);
        &self.elements[idx]
    }

    /// Clears the changed flag of `cell`, once its new look has been drawn.
    pub fn clear_changed(&mut self, cell: CellHandle)
        requires
            old(self).wf(),
            old(self).contains(cell),
        ensures
            final(self).wf(),
            final(self).same_layout(old(self)),
            final(self).same_except(old(self), cell),
            final(self).cell_at(cell).visibility() == old(self).cell_at(cell).visibility(),
            !final(self).cell_at(cell).dirty(),
            final(self).cell_at(cell).cached_adjacent() == old(self).cell_at(cell).cached_adjacent(),
            final(self).hidden_safe() == old(self).hidden_safe(),
            final(self).tracked_hidden() == old(self).tracked_hidden(),
            final(self).mines_hidden_at_start() == old(self).mines_hidden_at_start(),
    {
        let idx = self.index(cell);
        let mut c = self.elements[idx];
        let ghost f = *self;
        c.is_dirty = false;
        self.elements.set(idx, c);
        proof {
            lemma_count_update(f.elements@, idx as int, c);
            lemma_replace_cell(f, *self, cell, c);
        }
    }

    /// The hidden count as tracked (see `tracked_hidden`): on a board built
    /// from hidden cells, the number of unrevealed cells, mines included,
    /// until a mine is revealed.
    pub fn hidden_count(&self) -> (r: usize)
        requires
            self.wf(),
        ensures
            r == self.tracked_hidden(),
    {
        self.count_unrevealed
    }

    /// Counts the mines among the neighbours of `cell`, scanning them.
    fn count_adjacent_mines(&self, cell: CellHandle) -> (r: usize)
        requires
            self.wf(),
            self.contains(cell),
        ensures
            r == self.adjacent_mines_of(cell),
    {
        let neighbors = self.get_neighbors(cell);
        let ghost p = self.mine_pred();
        let mut count: usize = 0;
        let mut i: usize = 0;
        while i < neighbors.len()
            invariant
                self.wf(),
                i <= neighbors@.len(),
                p == self.mine_pred(),
                forall|b: CellHandle| #[trigger]
                    neighbors@.contains(b) <==> self.neighbors_of(cell).contains(b),
                count == neighbors@.take(i as int).filter(p).len(),
                count <= i,
            decreases neighbors@.len() - i,
        {
            let n = neighbors[i];
            assert(neighbors@.contains(n));
            let idx = self.index(n);
            proof {
                assert(neighbors@.take(i + 1) =~= neighbors@.take(i as int).push(n));
                neighbors@.take(i as int).lemma_filter_len_push(p, n);
            }
            if self.elements[idx].is_mine {
                count = count + 1;
            }
            i = i + 1;
        }
        proof {
            assert(neighbors@.take(neighbors@.len() as int) =~= neighbors@);
            lemma_nodup_filter_len(neighbors@, p);
        }
        count
    }
}

/// For a sequence without repeats, filtering it and filtering its set of
/// elements keep the same number of items.
proof fn lemma_nodup_filter_len<A>(s: Seq<A>, p: spec_fn(A) -> bool)
    requires
        s.no_duplicates(),
    ensures
        s.to_set().filter(p).finite(),
        s.filter(p).len() == s.to_set().filter(p).len(),
    decreases s.len(),
{
    broadcast use vstd::set::group_set_axioms;

    if s.len() == 0 {
        assert(s.to_set().filter(p) =~= Set::empty());
        assert(s.filter(p) =~= Seq::empty()) by {
            reveal(Seq::filter);
        }
    } else {
        let t = s.drop_last();
        let e = s.last();
        assert(s =~= t.push(e));
        assert(t.no_duplicates());
        assert(!t.contains(e)) by {
            if t.contains(e) {
                let k = choose|k: int| 0 <= k < t.len() && t[k] == e;
                assert(s[k] == s[s.len() - 1]);
            }
        }
        lemma_nodup_filter_len(t, p);
        t.lemma_filter_len_push(p, e);
        t.lemma_push_to_set_commute(e);
        if p(e) {
            assert(s.to_set().filter(p) =~= t.to_set().filter(p).insert(e));
        } else {
            assert(s.to_set().filter(p) =~= t.to_set().filter(p));
        }
    }
}

/// Replacing one cell, keeping its mine flag and any memoized count right,
/// keeps the board well formed once the hidden count is brought in line.
proof fn lemma_replace_cell(f: Field, g: Field, c: CellHandle, v: Cell)
    requires
        f.wf(),
        f.contains(c),
        g.width == f.width,
        g.height == f.height,
        g.elements@ == f.elements@.update(f.index_of(c), v),
        v.mine() == f.cell_at(c).mine(),
        v.cached_adjacent() is Some ==> v.cached_adjacent().unwrap() == f.adjacent_mines_of(c),
        g.hidden_mines == f.hidden_mines,
        g.count_unrevealed == hidden_safe_count(g.elements@) + g.hidden_mines@,
    ensures
        g.wf(),
        g.same_layout(&f),
        g.same_except(&f, c),
        g.cell_at(c) == v,
{
    lemma_index_in_range(f.width as int, f.height as int, c.x as int, c.y as int);
    assert forall|b: CellHandle| g.contains(b) && b != c implies #[trigger] g.cell_at(b)
        == f.cell_at(b) by {
        lemma_index_in_range(f.width as int, f.height as int, b.x as int, b.y as int);
        if g.index_of(b) == g.index_of(c) {
            lemma_index_injective(f.height as int, b, c);
        }
    }
    assert(g.same_layout(&f));
    assert forall|b: CellHandle|
        g.contains(b) && (#[trigger] g.cell_at(b)).cached_adjacent() is Some implies g.cell_at(
        b,
    ).cached_adjacent().unwrap() == g.adjacent_mines_of(b) by {
        lemma_same_layout_adjacent(g, f, b);
    }
}

/// The adjacency count of a cell is stable: it depends on the dimensions and
/// the mines alone, which no operation on a board changes, so asking twice
/// gives the same number.
pub proof fn lemma_same_layout_adjacent(f: Field, g: Field, c: CellHandle)
    requires
        f.same_layout(&g),
    ensures
        f.adjacent_mines_of(c) == g.adjacent_mines_of(c),
{
    assert(f.neighbors_of(c).filter(f.mine_pred()) =~= g.neighbors_of(c).filter(g.mine_pred()));
}

/// Each position of a board has its place in the cell storage.
pub proof fn lemma_position_in_storage(f: Field, c: CellHandle)
    requires
        f.wf(),
        f.contains(c),
    ensures
        0 <= f.index_of(c) < f.cells().len(),
{
    lemma_index_in_range(f.width as int, f.height as int, c.x as int, c.y as int);
}

/// Each index of the cell storage belongs to one position.
proof fn lemma_handle_of_index(f: Field, i: int) -> (c: CellHandle)
    requires
        f.wf(),
        0 <= i < f.cells().len(),
    ensures
        f.contains(c),
        f.index_of(c) == i,
{
    let h = f.height as int;
    let w = f.width as int;
    assert(h > 0) by (nonlinear_arith)
        requires
            0 <= i < w * h,
            w >= 0,
            h >= 0,
    ;
    vstd::arithmetic::div_mod::lemma_fundamental_div_mod(i, h);
    vstd::arithmetic::div_mod::lemma_mod_bound(i, h);
    vstd::arithmetic::div_mod::lemma_div_pos_is_pos(i, h);
    let x = i / h;
    let y = i % h;
    assert(x < w) by (nonlinear_arith)
        requires
            i == h * x + y,
            0 <= y < h,
            0 <= x,
            i < w * h,
    ;
    assert(x * h + y == i) by (nonlinear_arith)
        requires
            i == h * x + y,
    ;
    CellHandle { x: x as usize, y: y as usize }
}

proof fn lemma_index_in_range(w: int, h: int, x: int, y: int)
    requires
        0 <= x < w,
        0 <= y < h,
    ensures
        0 <= x * h + y < w * h,
        x * h + y >= x,
{
    assert(0 <= x * h + y < w * h && x * h + y >= x) by (nonlinear_arith)
        requires
            0 <= x < w,
            0 <= y < h,
    ;
}

proof fn lemma_index_injective(h: int, a: CellHandle, b: CellHandle)
    requires
        a.y < h,
        b.y < h,
        a.x * h + a.y == b.x * h + b.y,
    ensures
        a == b,
{
    let (ax, ay, bx, by) = (a.x as int, a.y as int, b.x as int, b.y as int);
    assert(ax == bx) by (nonlinear_arith)
        requires
            0 <= ay < h,
            0 <= by < h,
            0 <= ax,
            0 <= bx,
            ax * h + ay == bx * h + by,
    {
        if ax < bx {
            assert(bx * h >= (ax + 1) * h);
        } else if bx < ax {
            assert(ax * h >= (bx + 1) * h);
        }
    }
}

proof fn lemma_count_update(s: Seq<Cell>, i: int, v: Cell)
    requires
        0 <= i < s.len(),
    ensures
        hidden_safe_count(s.update(i, v)) + (if is_hidden_safe(s[i]) {
            1int
        } else {
            0int
        }) == hidden_safe_count(s) + (if is_hidden_safe(v) {
            1int
        } else {
            0int
        }),
    decreases s.len(),
{
    let t = s.update(i, v);
    if i == s.len() - 1 {
        assert(t.drop_last() =~= s.drop_last());
    } else {
        assert(t.drop_last() =~= s.drop_last().update(i, v));
        lemma_count_update(s.drop_last(), i, v);
    }
}

/// A cell has no adjacent mine exactly when none of its neighbours is a mine;
/// `nbrs` lists those neighbours.
pub proof fn lemma_zero_adjacent(f: Field, c: CellHandle, nbrs: Seq<CellHandle>)
    requires
        nbrs.to_set() == f.neighbors_of(c),
    ensures
        f.adjacent_mines_of(c) == 0 <==> forall|b: CellHandle| #[trigger]
            f.neighbors_of(c).contains(b) ==> !f.cell_at(b).mine(),
{
    broadcast use vstd::set::group_set_axioms;

    let s = f.neighbors_of(c).filter(f.mine_pred());
    vstd::set_lib::lemma_len_subset(s, nbrs.to_set());
    if f.adjacent_mines_of(c) == 0 {
        assert forall|b: CellHandle| #[trigger]
            f.neighbors_of(c).contains(b) implies !f.cell_at(b).mine() by {
            if f.cell_at(b).mine() {
                assert(s.contains(b));
            }
        }
    } else {
        if forall|b: CellHandle| #[trigger]
            f.neighbors_of(c).contains(b) ==> !f.cell_at(b).mine() {
            assert(s =~= Set::empty());
        }
    }
}

/// The tracked hidden count is the hidden safe cells plus the mines that were
/// unrevealed when the board was built.
pub proof fn lemma_tracked_hidden(f: Field)
    requires
        f.wf(),
    ensures
        f.tracked_hidden() == f.hidden_safe() + f.mines_hidden_at_start(),
{
}

/// The tracked hidden count equals a recount of the unrevealed cells, mines
/// included, as long as no mine that was unrevealed when the board was built
/// has been revealed since.
pub proof fn lemma_tracked_hidden_is_recount(f: Field)
    requires
        f.wf(),
        f.mines_hidden_at_start() == unrevealed_mine_count(f.cells()),
    ensures
        f.tracked_hidden() == unrevealed_count(f.cells()),
{
    lemma_unrevealed_split(f.cells());
}

/// Number of positions that `b` does not reveal and `a` does.
pub open spec fn opened_count(b: Seq<Cell>, a: Seq<Cell>) -> nat
    decreases b.len(),
{
    if b.len() == 0 || a.len() != b.len() {
        0
    } else {
        opened_count(b.drop_last(), a.drop_last()) + if b.last().visibility()
            != CellState::Revealed && a.last().visibility() == CellState::Revealed {
            1nat
        } else {
            0nat
        }
    }
}

/// Nothing is opened between a board and itself.
pub proof fn lemma_opened_none(s: Seq<Cell>)
    ensures
        opened_count(s, s) == 0,
    decreases s.len(),
{
    if s.len() > 0 {
        lemma_opened_none(s.drop_last());
    }
}

proof fn lemma_opened_seq(b: Seq<Cell>, a: Seq<Cell>)
    requires
        a.len() == b.len(),
        forall|i: int|
            0 <= i < b.len() ==> {
                &&& (#[trigger] a[i]).mine() == b[i].mine()
                &&& b[i].visibility() == CellState::Revealed ==> a[i].visibility()
                    == CellState::Revealed
                &&& b[i].visibility() != CellState::Revealed && a[i].visibility()
                    == CellState::Revealed ==> !b[i].mine()
            },
    ensures
        hidden_safe_count(b) == hidden_safe_count(a) + opened_count(b, a),
    decreases b.len(),
{
    if b.len() > 0 {
        let k = b.len() - 1;
        assert(a[k].mine() == b[k].mine());
        lemma_opened_seq(b.drop_last(), a.drop_last());
    }
}

/// When every revealed cell stays revealed, the mines stay put and only safe
/// cells are opened, the hidden safe cells go down by the number opened.
pub proof fn lemma_hidden_safe_drop(before: Field, after: Field)
    requires
        before.wf(),
        after.wf(),
        after.same_layout(&before),
        forall|c: CellHandle|
            before.contains(c) && #[trigger] before.is_revealed(c) ==> after.is_revealed(c),
        forall|c: CellHandle|
            before.contains(c) && !before.is_revealed(c) && #[trigger] after.is_revealed(c)
                ==> !before.cell_at(c).mine(),
    ensures
        before.hidden_safe() == after.hidden_safe() + opened_count(before.cells(), after.cells()),
{
    let (b, a) = (before.cells(), after.cells());
    assert forall|i: int| 0 <= i < b.len() implies {
        &&& (#[trigger] a[i]).mine() == b[i].mine()
        &&& b[i].visibility() == CellState::Revealed ==> a[i].visibility() == CellState::Revealed
        &&& b[i].visibility() != CellState::Revealed && a[i].visibility() == CellState::Revealed
            ==> !b[i].mine()
    } by {
        let c = lemma_handle_of_index(before, i);
        assert(after.contains(c));
        assert(after.cell_at(c).mine() == before.cell_at(c).mine());
        if b[i].visibility() == CellState::Revealed {
            assert(before.is_revealed(c));
        }
        if a[i].visibility() == CellState::Revealed {
            assert(after.is_revealed(c));
        }
    }
    lemma_opened_seq(b, a);
}

/// Revealing a cell twice: the second reveal yields `AlreadyRevealed` and
/// leaves the board as the first one left it.
pub proof fn lemma_reveal_twice(
    f0: Field,
    f1: Field,
    f2: Field,
    c: CellHandle,
    r1: RevealResult,
    r2: RevealResult,
)
    requires
        f0.wf(),
        f0.contains(c),
        f0.reveal_transition(&f1, c, r1),
        f1.reveal_transition(&f2, c, r2),
    ensures
        r2 == RevealResult::AlreadyRevealed,
        f2 == f1,
{
}

/// One step of play: `after` is `before` once `c` has been revealed (with
/// result `r`) when `is_reveal` holds, once its mark has been toggled otherwise.
pub open spec fn play_step(
    before: Field,
    after: Field,
    is_reveal: bool,
    c: CellHandle,
    r: RevealResult,
) -> bool {
    if is_reveal {
        before.reveal_transition(&after, c, r)
    } else {
        before.toggle_transition(&after, c)
    }
}

/// Whatever the order, and whatever marks are toggled in between, revealing
/// every cell that is not a mine wins the board: `boards[k + 1]` is
/// `boards[k]` after step `k`, a reveal of `order[k]` where `reveals[k]`
/// holds and a toggle of its mark otherwise.
pub proof fn lemma_revealing_all_safe_cells_wins(
    boards: Seq<Field>,
    reveals: Seq<bool>,
    order: Seq<CellHandle>,
    results: Seq<RevealResult>,
)
    requires
        boards.len() == order.len() + 1,
        reveals.len() == order.len(),
        results.len() == order.len(),
        boards[0].wf(),
        forall|k: int| 0 <= k < order.len() ==> boards[0].contains(#[trigger] order[k]),
        forall|k: int|
            0 <= k < order.len() ==> #[trigger] play_step(
                boards[k],
                boards[k + 1],
                reveals[k],
                order[k],
                results[k],
            ),
        forall|c: CellHandle|
            boards[0].contains(c) && !(#[trigger] boards[0].cell_at(c)).mine() ==> exists|k: int|
                0 <= k < order.len() && reveals[k] && order[k] == c,
    ensures
        boards.last().won(),
{
    lemma_steps_accumulate(boards, reveals, order, results, order.len() as int);
    let last = boards.last();
    assert forall|c: CellHandle| last.contains(c) && !(#[trigger] last.cell_at(c)).mine() implies last.is_revealed(c) by {
        assert(boards[0].contains(c));
        let k = choose|k: int| 0 <= k < order.len() && reveals[k] && order[k] == c;
        assert(last.is_revealed(order[k]));
    }
}

proof fn lemma_steps_accumulate(
    boards: Seq<Field>,
    reveals: Seq<bool>,
    order: Seq<CellHandle>,
    results: Seq<RevealResult>,
    n: int,
)
    requires
        0 <= n <= order.len(),
        boards.len() == order.len() + 1,
        reveals.len() == order.len(),
        results.len() == order.len(),
        boards[0].wf(),
        forall|k: int| 0 <= k < order.len() ==> boards[0].contains(#[trigger] order[k]),
        forall|k: int|
            0 <= k < order.len() ==> #[trigger] play_step(
                boards[k],
                boards[k + 1],
                reveals[k],
                order[k],
                results[k],
            ),
    ensures
        boards[n].wf(),
        boards[n].same_layout(&boards[0]),
        forall|j: int| 0 <= j < n && reveals[j] ==> boards[n].is_revealed(#[trigger] order[j]),
    decreases n,
{
    if n > 0 {
        lemma_steps_accumulate(boards, reveals, order, results, n - 1);
        let k = n - 1;
        assert(play_step(boards[k], boards[k + 1], reveals[k], order[k], results[k]));
        let prev = boards[k];
        let cur = boards[n];
        assert forall|c: CellHandle| cur.contains(c) implies (#[trigger] cur.cell_at(c)).mine()
            == boards[0].cell_at(c).mine() by {
            assert(prev.contains(c));
            assert(boards[0].contains(c));
            if c != order[k] {
                assert(cur.cell_at(c) == prev.cell_at(c));
            }
        }
        assert forall|j: int| 0 <= j < n && reveals[j] implies cur.is_revealed(#[trigger] order[j]) by {
            if order[j] != order[k] {
                if j < k {
                    assert(prev.is_revealed(order[j]));
                }
                assert(cur.cell_at(order[j]) == prev.cell_at(order[j]));
            } else if j < k {
                assert(prev.is_revealed(order[j]));
            }
        }
    }
}

} // verus!
